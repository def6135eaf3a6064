//! Evaluation of expressions on rows.
use vstd::prelude::*;
use vstd::utf8::encode_utf8;

use crate::expr::{
    exprs_view, lemma_list_views, BinaryOp, ColumnRefView, Expr, ExprView, UnaryOp,
};
use crate::facts::{
    known, AnswerView, ArithmeticOp, Comparison, EvalAnswer, EvalFacts, EvalRequest, FactsView,
    RequestView,
};
use crate::json::{json_of_bytes, parse_json_bytes, JsonView, JsonbValue};
use crate::json_text::{lowered, same_ignoring_case};
use crate::order::{
    compare_plain, law_value_order_is_strict, law_values_compare_by_value, plain_order, same_kind,
    value_precedes,
};
use crate::text::chars_of;
use crate::value::{values_view, Float64Bits, Value, ValueView};

verus! {

/// The outcome of an evaluation: a result, or a fact that is needed first.
#[derive(Debug)]
pub enum Step<T> {
    Done(T),
    Need(EvalRequest),
}

/// What an evaluation comes to.
pub enum StepView<T> {
    Done(T),
    Need(RequestView),
}

/// What an evaluation of a value came to.
pub open spec fn value_step(step: Step<Value>) -> StepView<ValueView> {
    match step {
        Step::Done(value) => StepView::Done(value@),
        Step::Need(request) => StepView::Need(request@),
    }
}

/// What an evaluation of a list of values came to.
pub open spec fn values_step(step: Step<Vec<Value>>) -> StepView<Seq<ValueView>> {
    match step {
        Step::Done(values) => StepView::Done(values_view(values@)),
        Step::Need(request) => StepView::Need(request@),
    }
}

/// What an evaluation of a condition or a comparison came to.
pub open spec fn plain_step<T>(step: Step<T>) -> StepView<T> {
    match step {
        Step::Done(result) => StepView::Done(result),
        Step::Need(request) => StepView::Need(request@),
    }
}

/// How two values compare: by their kind, or else by a fact.
pub open spec fn comparison_of(left: ValueView, right: ValueView, facts: FactsView) -> StepView<
    Comparison,
> {
    match plain_order(left, right) {
        Some(comparison) => StepView::Done(comparison),
        None => {
            let request = RequestView::Compare { left, right };
            match known(facts, request) {
                Some(AnswerView::Comparison(comparison)) => StepView::Done(comparison),
                _ => StepView::Need(request),
            }
        },
    }
}

/// Compares two values.
pub fn compare_values(left: &Value, right: &Value, facts: &EvalFacts) -> (result: Step<Comparison>)
    ensures
        plain_step(result) == comparison_of(left@, right@, facts@),
{
    match compare_plain(left, right) {
        Some(comparison) => Step::Done(comparison),
        None => {
            let request = EvalRequest::Compare { left: left.clone(), right: right.clone() };
            match facts.find(&request) {
                Some(EvalAnswer::Comparison(comparison)) => Step::Done(*comparison),
                _ => Step::Need(request),
            }
        },
    }
}

/// A truth that a fact gives.
pub open spec fn truth_of(request: RequestView, facts: FactsView) -> StepView<bool> {
    match known(facts, request) {
        Some(AnswerView::Truth(truth)) => StepView::Done(truth),
        _ => StepView::Need(request),
    }
}

/// Looks a truth up.
pub fn find_truth(request: EvalRequest, facts: &EvalFacts) -> (result: Step<bool>)
    ensures
        plain_step(result) == truth_of(request@, facts@),
{
    match facts.find(&request) {
        Some(EvalAnswer::Truth(truth)) => Step::Done(*truth),
        _ => Step::Need(request),
    }
}

/// A number.
pub open spec fn is_numeric(value: ValueView) -> bool {
    value is Int32 || value is Int64 || value is Float64
}

/// A number that is zero.
pub open spec fn is_zero(value: ValueView) -> bool {
    match value {
        ValueView::Int32(v) => v == 0,
        ValueView::Int64(v) => v == 0,
        ValueView::Float64(bits) => bits == 0 || bits == 0x8000_0000_0000_0000,
        _ => false,
    }
}

/// Arithmetic on two values. A division by zero gives zero; values that are no numbers give
/// null.
pub open spec fn arithmetic_of(
    op: ArithmeticOp,
    left: ValueView,
    right: ValueView,
    facts: FactsView,
) -> StepView<ValueView> {
    if !is_numeric(left) || !is_numeric(right) {
        StepView::Done(ValueView::Null)
    } else if (op == ArithmeticOp::Div || op == ArithmeticOp::Mod) && is_zero(right) {
        StepView::Done(ValueView::Float64(0))
    } else {
        let request = RequestView::Arithmetic { op, left, right };
        match known(facts, request) {
            Some(AnswerView::Number(bits)) => StepView::Done(ValueView::Float64(bits)),
            _ => StepView::Need(request),
        }
    }
}

/// Arithmetic on two values.
pub fn numeric_op(op: ArithmeticOp, left: &Value, right: &Value, facts: &EvalFacts) -> (result:
    Step<Value>)
    ensures
        value_step(result) == arithmetic_of(op, left@, right@, facts@),
{
    let numbers = match (left, right) {
        (
            Value::Int32(_) | Value::Int64(_) | Value::Float64(_),
            Value::Int32(_) | Value::Int64(_) | Value::Float64(_),
        ) => true,
        _ => false,
    };
    if !numbers {
        return Step::Done(Value::Null);
    }
    let zero = match right {
        Value::Int32(v) => *v == 0,
        Value::Int64(v) => *v == 0,
        Value::Float64(v) => v.bits == 0 || v.bits == 0x8000_0000_0000_0000,
        _ => false,
    };
    if (op == ArithmeticOp::Div || op == ArithmeticOp::Mod) && zero {
        return Step::Done(Value::Float64(Float64Bits { bits: 0 }));
    }
    let request = EvalRequest::Arithmetic { op, left: left.clone(), right: right.clone() };
    match facts.find(&request) {
        Some(EvalAnswer::Number(bits)) => Step::Done(Value::Float64(Float64Bits { bits: *bits })),
        _ => Step::Need(request),
    }
}

/// The truth of a comparison operator.
pub open spec fn comparison_holds(op: BinaryOp, comparison: Comparison) -> bool {
    match op {
        BinaryOp::Eq => comparison == Comparison::Equal,
        BinaryOp::Ne => comparison != Comparison::Equal,
        BinaryOp::Lt => comparison == Comparison::Less,
        BinaryOp::Le => comparison == Comparison::Less || comparison == Comparison::Equal,
        BinaryOp::Gt => comparison == Comparison::Greater,
        BinaryOp::Ge => comparison == Comparison::Greater || comparison == Comparison::Equal,
        _ => false,
    }
}

/// The arithmetic that an operator stands for.
pub open spec fn arithmetic_op(op: BinaryOp) -> Option<ArithmeticOp> {
    match op {
        BinaryOp::Add => Some(ArithmeticOp::Add),
        BinaryOp::Sub => Some(ArithmeticOp::Sub),
        BinaryOp::Mul => Some(ArithmeticOp::Mul),
        BinaryOp::Div => Some(ArithmeticOp::Div),
        BinaryOp::Mod => Some(ArithmeticOp::Mod),
        _ => None,
    }
}

/// Compares: equality, inequality or an order.
pub open spec fn is_comparison(op: BinaryOp) -> bool {
    match op {
        BinaryOp::Eq | BinaryOp::Ne | BinaryOp::Lt | BinaryOp::Le | BinaryOp::Gt | BinaryOp::Ge
        => true,
        _ => false,
    }
}

/// An operator applied to two values. `AND` and `OR` take anything but true for false.
pub open spec fn binary_of(left: ValueView, op: BinaryOp, right: ValueView, facts: FactsView) -> StepView<
    ValueView,
> {
    if is_comparison(op) {
        match comparison_of(left, right, facts) {
            StepView::Done(comparison) => StepView::Done(
                ValueView::Boolean(comparison_holds(op, comparison)),
            ),
            StepView::Need(request) => StepView::Need(request),
        }
    } else if op == BinaryOp::And {
        StepView::Done(
            ValueView::Boolean(
                left == ValueView::Boolean(true) && right == ValueView::Boolean(true),
            ),
        )
    } else if op == BinaryOp::Or {
        StepView::Done(
            ValueView::Boolean(
                left == ValueView::Boolean(true) || right == ValueView::Boolean(true),
            ),
        )
    } else {
        match arithmetic_op(op) {
            Some(arithmetic) => arithmetic_of(arithmetic, left, right, facts),
            None => StepView::Done(ValueView::Null),
        }
    }
}

/// Applies an operator to two values.
pub fn eval_binary_op(left: &Value, op: &BinaryOp, right: &Value, facts: &EvalFacts) -> (result:
    Step<Value>)
    ensures
        value_step(result) == binary_of(left@, *op, right@, facts@),
{
    match op {
        BinaryOp::Eq | BinaryOp::Ne | BinaryOp::Lt | BinaryOp::Le | BinaryOp::Gt | BinaryOp::Ge
        => match compare_values(left, right, facts) {
            Step::Done(comparison) => {
                let truth = match op {
                    BinaryOp::Eq => comparison == Comparison::Equal,
                    BinaryOp::Ne => comparison != Comparison::Equal,
                    BinaryOp::Lt => comparison == Comparison::Less,
                    BinaryOp::Le => comparison == Comparison::Less || comparison
                        == Comparison::Equal,
                    BinaryOp::Gt => comparison == Comparison::Greater,
                    _ => comparison == Comparison::Greater || comparison == Comparison::Equal,
                };
                Step::Done(Value::Boolean(truth))
            },
            Step::Need(request) => Step::Need(request),
        },
        BinaryOp::And => Step::Done(
            Value::Boolean(
                matches!(left, Value::Boolean(true)) && matches!(right, Value::Boolean(true)),
            ),
        ),
        BinaryOp::Or => Step::Done(
            Value::Boolean(
                matches!(left, Value::Boolean(true)) || matches!(right, Value::Boolean(true)),
            ),
        ),
        BinaryOp::Add => numeric_op(ArithmeticOp::Add, left, right, facts),
        BinaryOp::Sub => numeric_op(ArithmeticOp::Sub, left, right, facts),
        BinaryOp::Mul => numeric_op(ArithmeticOp::Mul, left, right, facts),
        BinaryOp::Div => numeric_op(ArithmeticOp::Div, left, right, facts),
        BinaryOp::Mod => numeric_op(ArithmeticOp::Mod, left, right, facts),
        _ => Step::Done(Value::Null),
    }
}

/// An operator applied to one value. The negation of the smallest integer wraps.
pub open spec fn unary_of(op: UnaryOp, value: ValueView) -> ValueView {
    match op {
        UnaryOp::Not => match value {
            ValueView::Boolean(b) => ValueView::Boolean(!b),
            _ => ValueView::Null,
        },
        UnaryOp::Neg => match value {
            ValueView::Int32(v) => ValueView::Int32(0i32.wrapping_sub(v)),
            ValueView::Int64(v) => ValueView::Int64(0i64.wrapping_sub(v)),
            ValueView::Float64(bits) => ValueView::Float64(bits ^ 0x8000_0000_0000_0000),
            _ => ValueView::Null,
        },
        UnaryOp::IsNull => ValueView::Boolean(value == ValueView::Null),
        UnaryOp::IsNotNull => ValueView::Boolean(value != ValueView::Null),
    }
}

/// Applies an operator to one value.
pub fn eval_unary_op(op: &UnaryOp, value: &Value) -> (result: Value)
    ensures
        result@ == unary_of(*op, value@),
{
    match op {
        UnaryOp::Not => match value {
            Value::Boolean(b) => Value::Boolean(!*b),
            _ => Value::Null,
        },
        UnaryOp::Neg => match value {
            Value::Int32(v) => Value::Int32(0i32.wrapping_sub(*v)),
            Value::Int64(v) => Value::Int64(0i64.wrapping_sub(*v)),
            Value::Float64(v) => Value::Float64(
                Float64Bits { bits: v.bits ^ 0x8000_0000_0000_0000 },
            ),
            _ => Value::Null,
        },
        UnaryOp::IsNull => Value::Boolean(value.is_null()),
        UnaryOp::IsNotNull => Value::Boolean(!value.is_null()),
    }
}

/// The first node of a document that a path selects. A document that is no JSON has none.
pub open spec fn node_at(document: Seq<u8>, path: Seq<char>, facts: FactsView) -> StepView<
    Option<JsonView>,
> {
    if json_of_bytes(document) is None {
        StepView::Done(None)
    } else {
        let request = RequestView::JsonQuery { document, path };
        match known(facts, request) {
            Some(AnswerView::Node(node)) => StepView::Done(node),
            _ => StepView::Need(request),
        }
    }
}

/// Whether a node of a document and a value are the same.
pub open spec fn node_matches(node: JsonView, value: ValueView, facts: FactsView) -> StepView<
    bool,
> {
    match (node, value) {
        (JsonView::Null, ValueView::Null) => StepView::Done(true),
        (JsonView::Bool(l), ValueView::Boolean(r)) => StepView::Done(l == r),
        (JsonView::Number(text), _) => if is_numeric(value) {
            truth_of(RequestView::NumberMatches { text, value }, facts)
        } else {
            StepView::Done(false)
        },
        (JsonView::String(l), ValueView::String(r)) => StepView::Done(l == r),
        _ => StepView::Done(false),
    }
}

/// Compares a node of a document with a value.
pub fn compare_jsonb_with_value(node: &JsonbValue, value: &Value, facts: &EvalFacts) -> (result:
    Step<bool>)
    ensures
        plain_step(result) == node_matches(node@, value@, facts@),
{
    match (node, value) {
        (JsonbValue::Null, Value::Null) => Step::Done(true),
        (JsonbValue::Bool(l), Value::Boolean(r)) => Step::Done(*l == *r),
        (JsonbValue::Number(text), Value::Int32(_) | Value::Int64(_) | Value::Float64(_))
        => find_truth(
            EvalRequest::NumberMatches { text: text.clone(), value: value.clone() },
            facts,
        ),
        (JsonbValue::String(l), Value::String(r)) => Step::Done(*l == *r),
        _ => Step::Done(false),
    }
}

/// A text that occurs in another.
pub open spec fn occurs_in(needle: Seq<char>, text: Seq<char>) -> bool {
    exists|k: int|
        0 <= k <= text.len() - needle.len() && #[trigger] text.subrange(k, k + needle.len())
            == needle
}

/// Tells whether a text occurs in another.
pub fn text_contains(text: &[char], needle: &[char]) -> (result: bool)
    ensures
        result == occurs_in(needle@, text@),
{
    if needle.len() > text.len() {
        return false;
    }
    let mut k: usize = 0;
    while k <= text.len() - needle.len()
        invariant
            needle.len() <= text.len(),
            k <= text.len() - needle.len() + 1,
            forall|p: int|
                0 <= p < k ==> #[trigger] text@.subrange(p, p + needle@.len()) != needle@,
        decreases text.len() - needle.len() + 1 - k,
    {
        let mut i: usize = 0;
        while i < needle.len() && text[k + i] == needle[i]
            invariant
                i <= needle.len(),
                needle.len() <= text.len(),
                k <= text.len() - needle.len(),
                forall|j: int| 0 <= j < i ==> text@[k + j] == #[trigger] needle@[j],
            decreases needle.len() - i,
        {
            i += 1;
        }
        if i == needle.len() {
            assert(text@.subrange(k as int, k + needle@.len()) =~= needle@);
            return true;
        }
        assert(text@.subrange(k as int, k + needle@.len())[i as int] != needle@[i as int]);
        if k == text.len() - needle.len() {
            return false;
        }
        k += 1;
    }
    false
}

/// The text form of the first node that a path selects.
pub open spec fn node_text(
    node: JsonView,
    document: Seq<u8>,
    path: Seq<char>,
    facts: FactsView,
) -> StepView<Seq<char>> {
    match node {
        JsonView::Null => StepView::Done("null"@),
        JsonView::Bool(b) => StepView::Done(
            if b {
                "true"@
            } else {
                "false"@
            },
        ),
        JsonView::String(text) => StepView::Done(text),
        _ => {
            let request = RequestView::JsonNodeText { document, path };
            match known(facts, request) {
                Some(AnswerView::Text(text)) => StepView::Done(text),
                _ => StepView::Need(request),
            }
        },
    }
}

/// What an evaluation of a text came to.
pub open spec fn text_step(step: Step<String>) -> StepView<Seq<char>> {
    match step {
        Step::Done(text) => StepView::Done(text@),
        Step::Need(request) => StepView::Need(request@),
    }
}

/// Copies a byte string.
pub fn clone_bytes(bytes: &Vec<u8>) -> (result: Vec<u8>)
    ensures
        result@ == bytes@,
{
    let result = bytes.clone();
    assert(result@ =~= bytes@);
    result
}

/// The text form of the first node that a path selects.
pub fn jsonb_value_to_string(
    node: &JsonbValue,
    document: &Vec<u8>,
    path: &String,
    facts: &EvalFacts,
) -> (result: Step<String>)
    ensures
        text_step(result) == node_text(node@, document@, path@, facts@),
{
    match node {
        JsonbValue::Null => Step::Done("null".to_owned()),
        JsonbValue::Bool(b) => if *b {
            Step::Done("true".to_owned())
        } else {
            Step::Done("false".to_owned())
        },
        JsonbValue::String(text) => Step::Done(text.clone()),
        _ => {
            let request = EvalRequest::JsonNodeText {
                document: clone_bytes(document),
                path: path.clone(),
            };
            match facts.find(&request) {
                Some(EvalAnswer::Text(text)) => Step::Done(text.clone()),
                _ => Step::Need(request),
            }
        },
    }
}

/// Whether the first node that a path selects is the expected value.
pub open spec fn path_equals(
    document: Seq<u8>,
    path: Seq<char>,
    expected: ValueView,
    facts: FactsView,
) -> StepView<bool> {
    match node_at(document, path, facts) {
        StepView::Done(Some(node)) => node_matches(node, expected, facts),
        StepView::Done(None) => StepView::Done(false),
        StepView::Need(request) => StepView::Need(request),
    }
}

/// Whether the first node that a path selects contains the expected text, or is the expected
/// value.
pub open spec fn path_contains(
    document: Seq<u8>,
    path: Seq<char>,
    expected: ValueView,
    facts: FactsView,
) -> StepView<bool> {
    match node_at(document, path, facts) {
        StepView::Done(Some(node)) => match expected {
            ValueView::String(needle) => match node_text(node, document, path, facts) {
                StepView::Done(text) => StepView::Done(occurs_in(needle, text)),
                StepView::Need(request) => StepView::Need(request),
            },
            _ => node_matches(node, expected, facts),
        },
        StepView::Done(None) => StepView::Done(false),
        StepView::Need(request) => StepView::Need(request),
    }
}

/// Whether a path selects a node.
pub open spec fn path_exists(document: Seq<u8>, path: Seq<char>, facts: FactsView) -> StepView<
    bool,
> {
    match node_at(document, path, facts) {
        StepView::Done(node) => StepView::Done(node is Some),
        StepView::Need(request) => StepView::Need(request),
    }
}

/// Whether the first node that a path selects is the expected value.
pub fn jsonb_path_eq(document: &Vec<u8>, path: &String, expected: &Value, facts: &EvalFacts) -> (result:
    Step<bool>)
    ensures
        plain_step(result) == path_equals(document@, path@, expected@, facts@),
{
    if parse_json_bytes(document.as_slice()).is_none() {
        return Step::Done(false);
    }
    let request = EvalRequest::JsonQuery { document: clone_bytes(document), path: path.clone() };
    match facts.find(&request) {
        Some(EvalAnswer::Node(Some(node))) => compare_jsonb_with_value(node, expected, facts),
        Some(EvalAnswer::Node(None)) => Step::Done(false),
        _ => Step::Need(request),
    }
}

/// Whether a path selects a node.
pub fn jsonb_path_exists(document: &Vec<u8>, path: &String, facts: &EvalFacts) -> (result: Step<bool>)
    ensures
        plain_step(result) == path_exists(document@, path@, facts@),
{
    if parse_json_bytes(document.as_slice()).is_none() {
        return Step::Done(false);
    }
    let request = EvalRequest::JsonQuery { document: clone_bytes(document), path: path.clone() };
    match facts.find(&request) {
        Some(EvalAnswer::Node(node)) => Step::Done(node.is_some()),
        _ => Step::Need(request),
    }
}

/// Whether the first node that a path selects contains the expected text, or is the expected
/// value.
pub fn jsonb_contains(document: &Vec<u8>, path: &String, expected: &Value, facts: &EvalFacts) -> (result:
    Step<bool>)
    ensures
        plain_step(result) == path_contains(document@, path@, expected@, facts@),
{
    if parse_json_bytes(document.as_slice()).is_none() {
        return Step::Done(false);
    }
    let request = EvalRequest::JsonQuery { document: clone_bytes(document), path: path.clone() };
    match facts.find(&request) {
        Some(EvalAnswer::Node(Some(node))) => match expected {
            Value::String(needle) => match jsonb_value_to_string(node, document, path, facts) {
                Step::Done(text) => Step::Done(
                    text_contains(
                        chars_of(text.as_str()).as_slice(),
                        chars_of(needle.as_str()).as_slice(),
                    ),
                ),
                Step::Need(request) => Step::Need(request),
            },
            _ => compare_jsonb_with_value(node, expected, facts),
        },
        Some(EvalAnswer::Node(None)) => Step::Done(false),
        _ => Step::Need(request),
    }
}

/// The upper case form that `str::to_uppercase` gives a text.
pub uninterp spec fn uppercase_text(text: Seq<char>) -> Seq<char>;

/// The lower case form that `str::to_lowercase` gives a text.
pub uninterp spec fn lowercase_text(text: Seq<char>) -> Seq<char>;

/// `str::to_uppercase`: the upper case form of the text, by the Unicode mapping.
#[verifier::external_body]
pub(crate) fn to_uppercase(text: &str) -> (result: String)
    ensures
        result@ == uppercase_text(text@),
{
    text.to_uppercase()
}

/// `str::to_lowercase`: the lower case form of the text, by the Unicode mapping.
#[verifier::external_body]
fn to_lowercase(text: &str) -> (result: String)
    ensures
        result@ == lowercase_text(text@),
{
    text.to_lowercase()
}

/// A name that is a function's name in any case.
pub open spec fn is_named(name: Seq<char>, function: Seq<char>) -> bool {
    lowered(name) == lowered(function)
}

/// A truth as a value.
pub open spec fn boolean_step(step: StepView<bool>) -> StepView<ValueView> {
    match step {
        StepView::Done(truth) => StepView::Done(ValueView::Boolean(truth)),
        StepView::Need(request) => StepView::Need(request),
    }
}

/// The first value of a list that is not null.
pub open spec fn first_non_null(values: Seq<ValueView>) -> ValueView
    decreases values.len(),
{
    if values.len() == 0 {
        ValueView::Null
    } else if values[0] != ValueView::Null {
        values[0]
    } else {
        first_non_null(values.skip(1))
    }
}

/// The absolute value of a number. That of the smallest integer wraps.
pub open spec fn absolute(value: ValueView) -> ValueView {
    match value {
        ValueView::Int32(v) => ValueView::Int32(
            if v < 0 {
                0i32.wrapping_sub(v)
            } else {
                v
            },
        ),
        ValueView::Int64(v) => ValueView::Int64(
            if v < 0 {
                0i64.wrapping_sub(v)
            } else {
                v
            },
        ),
        ValueView::Float64(bits) => ValueView::Float64(bits & 0x7FFF_FFFF_FFFF_FFFF),
        _ => ValueView::Null,
    }
}

/// A function applied to values. An unknown function gives null.
pub open spec fn function_of(name: Seq<char>, args: Seq<ValueView>, facts: FactsView) -> StepView<
    ValueView,
> {
    if is_named(name, "ABS"@) {
        StepView::Done(
            if args.len() > 0 {
                absolute(args[0])
            } else {
                ValueView::Null
            },
        )
    } else if is_named(name, "UPPER"@) {
        StepView::Done(
            if args.len() > 0 && args[0] is String {
                ValueView::String(uppercase_text(args[0]->String_0))
            } else {
                ValueView::Null
            },
        )
    } else if is_named(name, "LOWER"@) {
        StepView::Done(
            if args.len() > 0 && args[0] is String {
                ValueView::String(lowercase_text(args[0]->String_0))
            } else {
                ValueView::Null
            },
        )
    } else if is_named(name, "LENGTH"@) {
        StepView::Done(
            if args.len() > 0 && args[0] is String {
                ValueView::Int64((encode_utf8(args[0]->String_0).len() as usize) as i64)
            } else {
                ValueView::Null
            },
        )
    } else if is_named(name, "COALESCE"@) {
        StepView::Done(first_non_null(args))
    } else if is_named(name, "JSONB_PATH_EQ"@) {
        if args.len() >= 3 && args[0] is Jsonb && args[1] is String {
            boolean_step(path_equals(args[0]->Jsonb_0, args[1]->String_0, args[2], facts))
        } else {
            StepView::Done(ValueView::Boolean(false))
        }
    } else if is_named(name, "JSONB_CONTAINS"@) {
        if args.len() >= 3 && args[0] is Jsonb && args[1] is String {
            boolean_step(path_contains(args[0]->Jsonb_0, args[1]->String_0, args[2], facts))
        } else {
            StepView::Done(ValueView::Boolean(false))
        }
    } else if is_named(name, "JSONB_EXISTS"@) {
        if args.len() >= 2 && args[0] is Jsonb && args[1] is String {
            boolean_step(path_exists(args[0]->Jsonb_0, args[1]->String_0, facts))
        } else {
            StepView::Done(ValueView::Boolean(false))
        }
    } else {
        StepView::Done(ValueView::Null)
    }
}

/// Tells whether a name is a function's name in any case.
pub(crate) fn named(name: &[char], function: &str) -> (result: bool)
    ensures
        result == is_named(name@, function@),
{
    same_ignoring_case(name, chars_of(function).as_slice())
}

/// A truth as a value.
fn as_boolean(step: Step<bool>) -> (result: Step<Value>)
    ensures
        value_step(result) == boolean_step(plain_step(step)),
{
    match step {
        Step::Done(truth) => Step::Done(Value::Boolean(truth)),
        Step::Need(request) => Step::Need(request),
    }
}

/// The first value of a list that is not null.
fn coalesce(args: &[Value]) -> (result: Value)
    ensures
        result@ == first_non_null(values_view(args@)),
{
    let ghost views = values_view(args@);
    let mut i: usize = 0;
    assert(views.skip(0) =~= views);
    while i < args.len()
        invariant
            i <= args.len(),
            views == values_view(args@),
            first_non_null(views.skip(i as int)) == first_non_null(views),
        decreases args.len() - i,
    {
        assert(views.skip(i as int)[0] == args@[i as int]@);
        assert(views.skip(i as int).skip(1) =~= views.skip(i + 1));
        if !args[i].is_null() {
            return args[i].clone();
        }
        i += 1;
    }
    Value::Null
}

/// Applies a function to values.
pub fn eval_function(name: &str, args: &[Value], facts: &EvalFacts) -> (result: Step<Value>)
    ensures
        value_step(result) == function_of(name@, values_view(args@), facts@),
{
    let ghost views = values_view(args@);
    assert(args.len() > 0 ==> views[0] == args@[0]@);
    assert(args.len() > 1 ==> views[1] == args@[1]@);
    assert(args.len() > 2 ==> views[2] == args@[2]@);
    let chars = chars_of(name);
    let name = chars.as_slice();
    if named(name, "ABS") {
        if args.len() == 0 {
            return Step::Done(Value::Null);
        }
        return Step::Done(
            match &args[0] {
                Value::Int32(v) => Value::Int32(
                    if *v < 0 {
                        0i32.wrapping_sub(*v)
                    } else {
                        *v
                    },
                ),
                Value::Int64(v) => Value::Int64(
                    if *v < 0 {
                        0i64.wrapping_sub(*v)
                    } else {
                        *v
                    },
                ),
                Value::Float64(v) => Value::Float64(
                    Float64Bits { bits: v.bits & 0x7FFF_FFFF_FFFF_FFFF },
                ),
                _ => Value::Null,
            },
        );
    }
    if named(name, "UPPER") {
        if args.len() == 0 {
            return Step::Done(Value::Null);
        }
        return Step::Done(
            match &args[0] {
                Value::String(text) => Value::String(to_uppercase(text.as_str())),
                _ => Value::Null,
            },
        );
    }
    if named(name, "LOWER") {
        if args.len() == 0 {
            return Step::Done(Value::Null);
        }
        return Step::Done(
            match &args[0] {
                Value::String(text) => Value::String(to_lowercase(text.as_str())),
                _ => Value::Null,
            },
        );
    }
    if named(name, "LENGTH") {
        if args.len() == 0 {
            return Step::Done(Value::Null);
        }
        return Step::Done(
            match &args[0] {
                Value::String(text) => Value::Int64(text.as_str().len() as i64),
                _ => Value::Null,
            },
        );
    }
    if named(name, "COALESCE") {
        return Step::Done(coalesce(args));
    }
    if named(name, "JSONB_PATH_EQ") {
        if args.len() < 3 {
            return Step::Done(Value::Boolean(false));
        }
        return match (&args[0], &args[1]) {
            (Value::Jsonb(document), Value::String(path)) => as_boolean(
                jsonb_path_eq(document, path, &args[2], facts),
            ),
            _ => Step::Done(Value::Boolean(false)),
        };
    }
    if named(name, "JSONB_CONTAINS") {
        if args.len() < 3 {
            return Step::Done(Value::Boolean(false));
        }
        return match (&args[0], &args[1]) {
            (Value::Jsonb(document), Value::String(path)) => as_boolean(
                jsonb_contains(document, path, &args[2], facts),
            ),
            _ => Step::Done(Value::Boolean(false)),
        };
    }
    if named(name, "JSONB_EXISTS") {
        if args.len() < 2 {
            return Step::Done(Value::Boolean(false));
        }
        return match (&args[0], &args[1]) {
            (Value::Jsonb(document), Value::String(path)) => as_boolean(
                jsonb_path_exists(document, path, facts),
            ),
            _ => Step::Done(Value::Boolean(false)),
        };
    }
    Step::Done(Value::Null)
}

/// The value of a column of a row; a row without the column has null there.
pub open spec fn column_value(row: Seq<ValueView>, index: usize) -> ValueView {
    if index < row.len() {
        row[index as int]
    } else {
        ValueView::Null
    }
}

/// Whether a value lies between two others.
pub open spec fn between_of(value: ValueView, low: ValueView, high: ValueView, facts: FactsView) -> StepView<
    bool,
> {
    match comparison_of(value, low, facts) {
        StepView::Done(above) => if comparison_holds(BinaryOp::Ge, above) {
            match comparison_of(value, high, facts) {
                StepView::Done(below) => StepView::Done(comparison_holds(BinaryOp::Le, below)),
                StepView::Need(request) => StepView::Need(request),
            }
        } else {
            StepView::Done(false)
        },
        StepView::Need(request) => StepView::Need(request),
    }
}

/// Whether a value lies below one of two others or above the other.
pub open spec fn outside_of(value: ValueView, low: ValueView, high: ValueView, facts: FactsView) -> StepView<
    bool,
> {
    match comparison_of(value, low, facts) {
        StepView::Done(below) => if comparison_holds(BinaryOp::Lt, below) {
            StepView::Done(true)
        } else {
            match comparison_of(value, high, facts) {
                StepView::Done(above) => StepView::Done(comparison_holds(BinaryOp::Gt, above)),
                StepView::Need(request) => StepView::Need(request),
            }
        },
        StepView::Need(request) => StepView::Need(request),
    }
}

/// The value of an expression on a row. An aggregate has none.
pub open spec fn eval_view(expr: ExprView, row: Seq<ValueView>, facts: FactsView) -> StepView<
    ValueView,
>
    decreases expr,
{
    match expr {
        ExprView::Column(column) => StepView::Done(column_value(row, column.index)),
        ExprView::Literal(value) => StepView::Done(value),
        ExprView::BinaryOp { left, op, right } => match eval_view(*left, row, facts) {
            StepView::Done(l) => match eval_view(*right, row, facts) {
                StepView::Done(r) => binary_of(l, op, r, facts),
                StepView::Need(request) => StepView::Need(request),
            },
            StepView::Need(request) => StepView::Need(request),
        },
        ExprView::UnaryOp { op, expr } => match eval_view(*expr, row, facts) {
            StepView::Done(value) => StepView::Done(unary_of(op, value)),
            StepView::Need(request) => StepView::Need(request),
        },
        ExprView::Function { name, args } => match eval_all(args, row, facts) {
            StepView::Done(values) => function_of(name, values, facts),
            StepView::Need(request) => StepView::Need(request),
        },
        ExprView::In { expr, list } => match eval_view(*expr, row, facts) {
            StepView::Done(value) => boolean_step(found_in(list, value, row, facts)),
            StepView::Need(request) => StepView::Need(request),
        },
        ExprView::NotIn { expr, list } => match eval_view(*expr, row, facts) {
            StepView::Done(value) => match found_in(list, value, row, facts) {
                StepView::Done(found) => StepView::Done(ValueView::Boolean(!found)),
                StepView::Need(request) => StepView::Need(request),
            },
            StepView::Need(request) => StepView::Need(request),
        },
        ExprView::Between { expr, low, high } => match eval_view(*expr, row, facts) {
            StepView::Done(value) => match eval_view(*low, row, facts) {
                StepView::Done(lo) => match eval_view(*high, row, facts) {
                    StepView::Done(hi) => boolean_step(between_of(value, lo, hi, facts)),
                    StepView::Need(request) => StepView::Need(request),
                },
                StepView::Need(request) => StepView::Need(request),
            },
            StepView::Need(request) => StepView::Need(request),
        },
        ExprView::NotBetween { expr, low, high } => match eval_view(*expr, row, facts) {
            StepView::Done(value) => match eval_view(*low, row, facts) {
                StepView::Done(lo) => match eval_view(*high, row, facts) {
                    StepView::Done(hi) => boolean_step(outside_of(value, lo, hi, facts)),
                    StepView::Need(request) => StepView::Need(request),
                },
                StepView::Need(request) => StepView::Need(request),
            },
            StepView::Need(request) => StepView::Need(request),
        },
        ExprView::Like { expr, pattern } => match eval_view(*expr, row, facts) {
            StepView::Done(ValueView::String(text)) => match truth_of(
                RequestView::Like { text, pattern },
                facts,
            ) {
                StepView::Done(truth) => StepView::Done(ValueView::Boolean(truth)),
                StepView::Need(request) => StepView::Need(request),
            },
            StepView::Done(_) => StepView::Done(ValueView::Boolean(false)),
            StepView::Need(request) => StepView::Need(request),
        },
        ExprView::NotLike { expr, pattern } => match eval_view(*expr, row, facts) {
            StepView::Done(ValueView::String(text)) => match truth_of(
                RequestView::Like { text, pattern },
                facts,
            ) {
                StepView::Done(truth) => StepView::Done(ValueView::Boolean(!truth)),
                StepView::Need(request) => StepView::Need(request),
            },
            StepView::Done(_) => StepView::Done(ValueView::Boolean(true)),
            StepView::Need(request) => StepView::Need(request),
        },
        ExprView::Match { expr, pattern } => match eval_view(*expr, row, facts) {
            StepView::Done(ValueView::String(text)) => match truth_of(
                RequestView::Regex { text, pattern },
                facts,
            ) {
                StepView::Done(truth) => StepView::Done(ValueView::Boolean(truth)),
                StepView::Need(request) => StepView::Need(request),
            },
            StepView::Done(_) => StepView::Done(ValueView::Boolean(false)),
            StepView::Need(request) => StepView::Need(request),
        },
        ExprView::NotMatch { expr, pattern } => match eval_view(*expr, row, facts) {
            StepView::Done(ValueView::String(text)) => match truth_of(
                RequestView::Regex { text, pattern },
                facts,
            ) {
                StepView::Done(truth) => StepView::Done(ValueView::Boolean(!truth)),
                StepView::Need(request) => StepView::Need(request),
            },
            StepView::Done(_) => StepView::Done(ValueView::Boolean(true)),
            StepView::Need(request) => StepView::Need(request),
        },
        ExprView::Aggregate { .. } => StepView::Done(ValueView::Null),
    }
}

/// The values of a list of expressions on a row, in order.
pub open spec fn eval_all(exprs: Seq<ExprView>, row: Seq<ValueView>, facts: FactsView) -> StepView<
    Seq<ValueView>,
>
    decreases exprs,
{
    if exprs.len() == 0 {
        StepView::Done(Seq::empty())
    } else {
        match eval_all(exprs.drop_last(), row, facts) {
            StepView::Done(before) => match eval_view(exprs.last(), row, facts) {
                StepView::Done(value) => StepView::Done(before.push(value)),
                StepView::Need(request) => StepView::Need(request),
            },
            StepView::Need(request) => StepView::Need(request),
        }
    }
}

/// Whether one of the expressions of a list has the given value. Those behind the first one
/// that has it are not evaluated.
pub open spec fn found_in(
    list: Seq<ExprView>,
    value: ValueView,
    row: Seq<ValueView>,
    facts: FactsView,
) -> StepView<bool>
    decreases list,
{
    if list.len() == 0 {
        StepView::Done(false)
    } else {
        match found_in(list.drop_last(), value, row, facts) {
            StepView::Done(false) => match eval_view(list.last(), row, facts) {
                StepView::Done(item) => match comparison_of(item, value, facts) {
                    StepView::Done(comparison) => StepView::Done(
                        comparison == Comparison::Equal,
                    ),
                    StepView::Need(request) => StepView::Need(request),
                },
                StepView::Need(request) => StepView::Need(request),
            },
            step => step,
        }
    }
}

/// Whether a value lies between two others.
fn eval_between(value: &Value, low: &Value, high: &Value, facts: &EvalFacts) -> (result: Step<bool>)
    ensures
        plain_step(result) == between_of(value@, low@, high@, facts@),
{
    match compare_values(value, low, facts) {
        Step::Done(above) => if above == Comparison::Greater || above == Comparison::Equal {
            match compare_values(value, high, facts) {
                Step::Done(below) => Step::Done(
                    below == Comparison::Less || below == Comparison::Equal,
                ),
                Step::Need(request) => Step::Need(request),
            }
        } else {
            Step::Done(false)
        },
        Step::Need(request) => Step::Need(request),
    }
}

/// Whether a value lies below one of two others or above the other.
fn eval_outside(value: &Value, low: &Value, high: &Value, facts: &EvalFacts) -> (result: Step<bool>)
    ensures
        plain_step(result) == outside_of(value@, low@, high@, facts@),
{
    match compare_values(value, low, facts) {
        Step::Done(below) => if below == Comparison::Less {
            Step::Done(true)
        } else {
            match compare_values(value, high, facts) {
                Step::Done(above) => Step::Done(above == Comparison::Greater),
                Step::Need(request) => Step::Need(request),
            }
        },
        Step::Need(request) => Step::Need(request),
    }
}

/// A prefix of a list that needs a fact makes the whole list need it.
proof fn lemma_eval_all_prefix(exprs: Seq<ExprView>, row: Seq<ValueView>, facts: FactsView, k: int)
    requires
        0 <= k <= exprs.len(),
        eval_all(exprs.take(k), row, facts) is Need,
    ensures
        eval_all(exprs, row, facts) == eval_all(exprs.take(k), row, facts),
    decreases exprs.len(),
{
    if k == exprs.len() {
        assert(exprs.take(k) =~= exprs);
    } else {
        assert(exprs.drop_last().take(k) =~= exprs.take(k));
        lemma_eval_all_prefix(exprs.drop_last(), row, facts, k);
    }
}

/// A prefix of a list that decides membership decides it for the whole list.
proof fn lemma_found_in_prefix(
    list: Seq<ExprView>,
    value: ValueView,
    row: Seq<ValueView>,
    facts: FactsView,
    k: int,
)
    requires
        0 <= k <= list.len(),
        found_in(list.take(k), value, row, facts) != StepView::<bool>::Done(false),
    ensures
        found_in(list, value, row, facts) == found_in(list.take(k), value, row, facts),
    decreases list.len(),
{
    if k == list.len() {
        assert(list.take(k) =~= list);
    } else {
        assert(list.drop_last().take(k) =~= list.take(k));
        lemma_found_in_prefix(list.drop_last(), value, row, facts, k);
    }
}

/// Evaluates a list of expressions on a row, in order.
pub fn eval_exprs_with(exprs: &Vec<Expr>, row: &[Value], facts: &EvalFacts) -> (result: Step<
    Vec<Value>,
>)
    ensures
        values_step(result) == eval_all(exprs_view(exprs@), values_view(row@), facts@),
    decreases exprs,
{
    let ghost views = exprs_view(exprs@);
    let mut values: Vec<Value> = Vec::new();
    let mut i: usize = 0;
    assert(values_view(values@) =~= Seq::empty());
    assert(views.take(0) =~= Seq::empty());
    while i < exprs.len()
        invariant
            i <= exprs.len(),
            views == exprs_view(exprs@),
            eval_all(views.take(i as int), values_view(row@), facts@) == StepView::Done(
                values_view(values@),
            ),
        decreases exprs.len() - i,
    {
        assert(views.take(i + 1).drop_last() =~= views.take(i as int));
        assert(views.take(i + 1).last() == exprs@[i as int]@);
        let ghost before = values_view(values@);
        match eval_expr_with(&exprs[i], row, facts) {
            Step::Done(value) => {
                values.push(value);
                assert(values_view(values@) =~= before.push(value@));
            },
            Step::Need(request) => {
                proof {
                    lemma_eval_all_prefix(views, values_view(row@), facts@, i + 1);
                }
                return Step::Need(request);
            },
        }
        i += 1;
    }
    assert(views.take(views.len() as int) =~= views);
    Step::Done(values)
}

/// Looks for an expression of a list that has the given value.
fn eval_membership(list: &Vec<Expr>, value: &Value, row: &[Value], facts: &EvalFacts) -> (result:
    Step<bool>)
    ensures
        plain_step(result) == found_in(
            exprs_view(list@),
            value@,
            values_view(row@),
            facts@,
        ),
    decreases list,
{
    let ghost views = exprs_view(list@);
    let mut i: usize = 0;
    assert(views.take(0) =~= Seq::empty());
    while i < list.len()
        invariant
            i <= list.len(),
            views == exprs_view(list@),
            found_in(views.take(i as int), value@, values_view(row@), facts@)
                == StepView::<bool>::Done(false),
        decreases list.len() - i,
    {
        assert(views.take(i + 1).drop_last() =~= views.take(i as int));
        assert(views.take(i + 1).last() == list@[i as int]@);
        let step = match eval_expr_with(&list[i], row, facts) {
            Step::Done(item) => match compare_values(&item, value, facts) {
                Step::Done(comparison) => Step::Done(comparison == Comparison::Equal),
                Step::Need(request) => Step::Need(request),
            },
            Step::Need(request) => Step::Need(request),
        };
        match step {
            Step::Done(false) => {},
            decided => {
                proof {
                    lemma_found_in_prefix(views, value@, values_view(row@), facts@, i + 1);
                }
                return decided;
            },
        }
        i += 1;
    }
    assert(views.take(views.len() as int) =~= views);
    Step::Done(false)
}

/// Evaluates an expression on the values of a row.
pub fn eval_expr_with(expr: &Expr, row: &[Value], facts: &EvalFacts) -> (result: Step<Value>)
    ensures
        value_step(result) == eval_view(expr@, values_view(row@), facts@),
    decreases expr,
{
    broadcast use lemma_list_views;

    match expr {
        Expr::Column(column) => {
            if column.index < row.len() {
                assert(values_view(row@)[column.index as int] == row@[column.index as int]@);
                Step::Done(row[column.index].clone())
            } else {
                Step::Done(Value::Null)
            }
        },
        Expr::Literal(value) => Step::Done(value.clone()),
        Expr::BinaryOp { left, op, right } => match eval_expr_with(left, row, facts) {
            Step::Done(l) => match eval_expr_with(right, row, facts) {
                Step::Done(r) => eval_binary_op(&l, op, &r, facts),
                Step::Need(request) => Step::Need(request),
            },
            Step::Need(request) => Step::Need(request),
        },
        Expr::UnaryOp { op, expr } => match eval_expr_with(expr, row, facts) {
            Step::Done(value) => Step::Done(eval_unary_op(op, &value)),
            Step::Need(request) => Step::Need(request),
        },
        Expr::Function { name, args } => match eval_exprs_with(args, row, facts) {
            Step::Done(values) => eval_function(name.as_str(), values.as_slice(), facts),
            Step::Need(request) => Step::Need(request),
        },
        Expr::In { expr, list } => match eval_expr_with(expr, row, facts) {
            Step::Done(value) => as_boolean(eval_membership(list, &value, row, facts)),
            Step::Need(request) => Step::Need(request),
        },
        Expr::NotIn { expr, list } => match eval_expr_with(expr, row, facts) {
            Step::Done(value) => match eval_membership(list, &value, row, facts) {
                Step::Done(found) => Step::Done(Value::Boolean(!found)),
                Step::Need(request) => Step::Need(request),
            },
            Step::Need(request) => Step::Need(request),
        },
        Expr::Between { expr, low, high } => match eval_expr_with(expr, row, facts) {
            Step::Done(value) => match eval_expr_with(low, row, facts) {
                Step::Done(lo) => match eval_expr_with(high, row, facts) {
                    Step::Done(hi) => as_boolean(eval_between(&value, &lo, &hi, facts)),
                    Step::Need(request) => Step::Need(request),
                },
                Step::Need(request) => Step::Need(request),
            },
            Step::Need(request) => Step::Need(request),
        },
        Expr::NotBetween { expr, low, high } => match eval_expr_with(expr, row, facts) {
            Step::Done(value) => match eval_expr_with(low, row, facts) {
                Step::Done(lo) => match eval_expr_with(high, row, facts) {
                    Step::Done(hi) => as_boolean(eval_outside(&value, &lo, &hi, facts)),
                    Step::Need(request) => Step::Need(request),
                },
                Step::Need(request) => Step::Need(request),
            },
            Step::Need(request) => Step::Need(request),
        },
        Expr::Like { expr, pattern } => match eval_expr_with(expr, row, facts) {
            Step::Done(Value::String(text)) => match find_truth(
                EvalRequest::Like { text, pattern: pattern.clone() },
                facts,
            ) {
                Step::Done(truth) => Step::Done(Value::Boolean(truth)),
                Step::Need(request) => Step::Need(request),
            },
            Step::Done(_) => Step::Done(Value::Boolean(false)),
            Step::Need(request) => Step::Need(request),
        },
        Expr::NotLike { expr, pattern } => match eval_expr_with(expr, row, facts) {
            Step::Done(Value::String(text)) => match find_truth(
                EvalRequest::Like { text, pattern: pattern.clone() },
                facts,
            ) {
                Step::Done(truth) => Step::Done(Value::Boolean(!truth)),
                Step::Need(request) => Step::Need(request),
            },
            Step::Done(_) => Step::Done(Value::Boolean(true)),
            Step::Need(request) => Step::Need(request),
        },
        Expr::Match { expr, pattern } => match eval_expr_with(expr, row, facts) {
            Step::Done(Value::String(text)) => match find_truth(
                EvalRequest::Regex { text, pattern: pattern.clone() },
                facts,
            ) {
                Step::Done(truth) => Step::Done(Value::Boolean(truth)),
                Step::Need(request) => Step::Need(request),
            },
            Step::Done(_) => Step::Done(Value::Boolean(false)),
            Step::Need(request) => Step::Need(request),
        },
        Expr::NotMatch { expr, pattern } => match eval_expr_with(expr, row, facts) {
            Step::Done(Value::String(text)) => match find_truth(
                EvalRequest::Regex { text, pattern: pattern.clone() },
                facts,
            ) {
                Step::Done(truth) => Step::Done(Value::Boolean(!truth)),
                Step::Need(request) => Step::Need(request),
            },
            Step::Done(_) => Step::Done(Value::Boolean(true)),
            Step::Need(request) => Step::Need(request),
        },
        Expr::Aggregate { .. } => Step::Done(Value::Null),
    }
}

/// Comparisons of two values of one kind say what holds of the values: equality that they are the
/// same, and an order which of them comes first.
pub proof fn law_comparisons_follow_values(
    left: ExprView,
    right: ExprView,
    l: ValueView,
    r: ValueView,
    row: Seq<ValueView>,
    facts: FactsView,
)
    requires
        eval_view(left, row, facts) == StepView::Done(l),
        eval_view(right, row, facts) == StepView::Done(r),
        same_kind(l, r),
    ensures
        applied(left, BinaryOp::Eq, right, row, facts) == truth(l == r),
        applied(left, BinaryOp::Ne, right, row, facts) == truth(l != r),
        applied(left, BinaryOp::Lt, right, row, facts) == truth(value_precedes(l, r)),
        applied(left, BinaryOp::Le, right, row, facts) == truth(!value_precedes(r, l)),
        applied(left, BinaryOp::Gt, right, row, facts) == truth(value_precedes(r, l)),
        applied(left, BinaryOp::Ge, right, row, facts) == truth(!value_precedes(l, r)),
{
    law_values_compare_by_value(l, r);
    law_value_order_is_strict(l, r, l);
}

/// A truth as the outcome of an evaluation.
pub open spec fn truth(holds: bool) -> StepView<ValueView> {
    StepView::Done(ValueView::Boolean(holds))
}

/// The value of an operator between two expressions.
pub open spec fn applied(
    left: ExprView,
    op: BinaryOp,
    right: ExprView,
    row: Seq<ValueView>,
    facts: FactsView,
) -> StepView<ValueView> {
    eval_view(
        ExprView::BinaryOp { left: Box::new(left), op, right: Box::new(right) },
        row,
        facts,
    )
}

/// The facts give the results of arithmetic on two whole numbers. `double` is the number format in
/// which sums, differences and products come, and quotients and remainders come as they are given.
pub open spec fn answers_arithmetic(
    facts: FactsView,
    left: ValueView,
    right: ValueView,
    l: int,
    r: int,
    double: spec_fn(int) -> u64,
    quotient: u64,
    remainder: u64,
) -> bool {
    &&& known(facts, RequestView::Arithmetic { op: ArithmeticOp::Add, left, right }) == Some(
        AnswerView::Number(double(l + r)),
    )
    &&& known(facts, RequestView::Arithmetic { op: ArithmeticOp::Sub, left, right }) == Some(
        AnswerView::Number(double(l - r)),
    )
    &&& known(facts, RequestView::Arithmetic { op: ArithmeticOp::Mul, left, right }) == Some(
        AnswerView::Number(double(l * r)),
    )
    &&& known(facts, RequestView::Arithmetic { op: ArithmeticOp::Div, left, right }) == Some(
        AnswerView::Number(quotient),
    )
    &&& known(facts, RequestView::Arithmetic { op: ArithmeticOp::Mod, left, right }) == Some(
        AnswerView::Number(remainder),
    )
}

/// The whole number that a value is.
pub open spec fn whole_number(value: ValueView) -> Option<int> {
    match value {
        ValueView::Int32(v) => Some(v as int),
        ValueView::Int64(v) => Some(v as int),
        _ => None,
    }
}

/// Arithmetic on whole numbers gives the result of its own operator, in any number format: a sum
/// for an addition, a difference for a subtraction, and so on. Dividing by zero gives zero.
pub proof fn law_arithmetic_computes_its_operator(
    left: ExprView,
    right: ExprView,
    l: ValueView,
    r: ValueView,
    row: Seq<ValueView>,
    facts: FactsView,
    double: spec_fn(int) -> u64,
    quotient: u64,
    remainder: u64,
)
    requires
        eval_view(left, row, facts) == StepView::Done(l),
        eval_view(right, row, facts) == StepView::Done(r),
        whole_number(l) is Some,
        whole_number(r) is Some,
        answers_arithmetic(
            facts,
            l,
            r,
            whole_number(l)->0,
            whole_number(r)->0,
            double,
            quotient,
            remainder,
        ),
    ensures
        ({
            let a = whole_number(l)->0;
            let b = whole_number(r)->0;
            let number = |bits: u64| StepView::<ValueView>::Done(ValueView::Float64(bits));
            &&& applied(left, BinaryOp::Add, right, row, facts) == number(double(a + b))
            &&& applied(left, BinaryOp::Sub, right, row, facts) == number(double(a - b))
            &&& applied(left, BinaryOp::Mul, right, row, facts) == number(double(a * b))
            &&& applied(left, BinaryOp::Div, right, row, facts) == number(
                if b == 0 {
                    0
                } else {
                    quotient
                },
            )
            &&& applied(left, BinaryOp::Mod, right, row, facts) == number(
                if b == 0 {
                    0
                } else {
                    remainder
                },
            )
        }),
{
}

/// Arithmetic on numbers asks for the result of its own operator on its own operands, in order, and
/// no two operators ask for the same. Values that are no numbers give null.
pub proof fn law_arithmetic_asks_for_its_operator(
    op: BinaryOp,
    other: BinaryOp,
    l: ValueView,
    r: ValueView,
)
    requires
        op == BinaryOp::Add || op == BinaryOp::Sub || op == BinaryOp::Mul || op == BinaryOp::Div
            || op == BinaryOp::Mod,
        other == BinaryOp::Add || other == BinaryOp::Sub || other == BinaryOp::Mul || other
            == BinaryOp::Div || other == BinaryOp::Mod,
        op != other,
    ensures
        is_numeric(l) && is_numeric(r) && !is_zero(r) ==> {
            &&& binary_of(l, op, r, Seq::empty()) matches StepView::Need(
                RequestView::Arithmetic { left, right, .. },
            ) && left == l && right == r
            &&& binary_of(l, op, r, Seq::empty()) != binary_of(l, other, r, Seq::empty())
        },
        !is_numeric(l) || !is_numeric(r) ==> binary_of(l, op, r, Seq::empty()) == StepView::Done(
            ValueView::Null,
        ),
{
}

/// `AND`, `OR` and `NOT` are the connectives of truths; what is not true counts as false between
/// `AND` and `OR`.
pub proof fn law_connectives_combine_truths(
    left: ExprView,
    right: ExprView,
    l: ValueView,
    r: ValueView,
    row: Seq<ValueView>,
    facts: FactsView,
)
    requires
        eval_view(left, row, facts) == StepView::Done(l),
        eval_view(right, row, facts) == StepView::Done(r),
    ensures
        ({
            let yes = ValueView::Boolean(true);
            &&& applied(left, BinaryOp::And, right, row, facts) == truth(l == yes && r == yes)
            &&& applied(left, BinaryOp::Or, right, row, facts) == truth(l == yes || r == yes)
            &&& eval_view(
                ExprView::UnaryOp { op: UnaryOp::Not, expr: Box::new(left) },
                row,
                facts,
            ) == (match l {
                ValueView::Boolean(holds) => truth(!holds),
                _ => StepView::Done(ValueView::Null),
            })
            &&& eval_view(
                ExprView::UnaryOp { op: UnaryOp::IsNull, expr: Box::new(left) },
                row,
                facts,
            ) == truth(l == ValueView::Null)
            &&& eval_view(
                ExprView::UnaryOp { op: UnaryOp::IsNotNull, expr: Box::new(left) },
                row,
                facts,
            ) == truth(l != ValueView::Null)
        }),
{
}

/// A negation turns a number around: the number and its negation add up to zero, but for the
/// smallest number of a width, which stays. Floating point numbers change their sign and nothing
/// else.
pub proof fn law_negation_changes_sign(
    inner: ExprView,
    value: ValueView,
    row: Seq<ValueView>,
    facts: FactsView,
)
    requires
        eval_view(inner, row, facts) == StepView::Done(value),
    ensures
        ({
            let negated = eval_view(
                ExprView::UnaryOp { op: UnaryOp::Neg, expr: Box::new(inner) },
                row,
                facts,
            );
            match value {
                ValueView::Int32(v) => negated matches StepView::Done(ValueView::Int32(n)) && (if v
                    == i32::MIN {
                    n == v
                } else {
                    n + v == 0
                }),
                ValueView::Int64(v) => negated matches StepView::Done(ValueView::Int64(n)) && (if v
                    == i64::MIN {
                    n == v
                } else {
                    n + v == 0
                }),
                ValueView::Float64(bits) => negated matches StepView::Done(ValueView::Float64(n))
                    && (n >= 0x8000_0000_0000_0000u64) != (bits >= 0x8000_0000_0000_0000u64) && n
                    % 0x8000_0000_0000_0000u64 == bits % 0x8000_0000_0000_0000u64,
                _ => negated == StepView::Done(ValueView::Null),
            }
        }),
{
    if let ValueView::Float64(bits) = value {
        assert(((bits ^ 0x8000_0000_0000_0000u64) >= 0x8000_0000_0000_0000u64) != (bits
            >= 0x8000_0000_0000_0000u64)) by (bit_vector);
        assert((bits ^ 0x8000_0000_0000_0000u64) % 0x8000_0000_0000_0000u64 == bits
            % 0x8000_0000_0000_0000u64) by (bit_vector);
    }
}

/// `BETWEEN` holds of the values from the lower bound to the upper one, both included, and
/// `NOT BETWEEN` of the others.
pub proof fn law_between_selects_range(
    expr: ExprView,
    low: ExprView,
    high: ExprView,
    value: ValueView,
    lower: ValueView,
    upper: ValueView,
    row: Seq<ValueView>,
    facts: FactsView,
)
    requires
        eval_view(expr, row, facts) == StepView::Done(value),
        eval_view(low, row, facts) == StepView::Done(lower),
        eval_view(high, row, facts) == StepView::Done(upper),
        same_kind(value, lower),
        same_kind(value, upper),
    ensures
        ({
            let inside = !value_precedes(value, lower) && !value_precedes(upper, value);
            &&& eval_view(
                ExprView::Between {
                    expr: Box::new(expr),
                    low: Box::new(low),
                    high: Box::new(high),
                },
                row,
                facts,
            ) == truth(inside)
            &&& eval_view(
                ExprView::NotBetween {
                    expr: Box::new(expr),
                    low: Box::new(low),
                    high: Box::new(high),
                },
                row,
                facts,
            ) == truth(!inside)
        }),
{
    law_values_compare_by_value(value, lower);
    law_values_compare_by_value(value, upper);
    law_value_order_is_strict(value, lower, value);
    law_value_order_is_strict(value, upper, value);
}

/// The items of a list have values of one kind with the given value.
pub open spec fn items_evaluate(
    list: Seq<ExprView>,
    items: Seq<ValueView>,
    value: ValueView,
    row: Seq<ValueView>,
    facts: FactsView,
) -> bool {
    &&& list.len() == items.len()
    &&& forall|i: int|
        0 <= i < list.len() ==> eval_view(#[trigger] list[i], row, facts) == StepView::Done(
            items[i],
        ) && same_kind(items[i], value)
}

proof fn lemma_found_in(
    list: Seq<ExprView>,
    items: Seq<ValueView>,
    value: ValueView,
    row: Seq<ValueView>,
    facts: FactsView,
)
    requires
        items_evaluate(list, items, value, row, facts),
    ensures
        found_in(list, value, row, facts) == StepView::<bool>::Done(items.contains(value)),
    decreases list.len(),
{
    if list.len() > 0 {
        let front = list.drop_last();
        let shorter = items.drop_last();
        assert forall|i: int| 0 <= i < front.len() implies eval_view(
            #[trigger] front[i],
            row,
            facts,
        ) == StepView::Done(shorter[i]) && same_kind(shorter[i], value) by {
            assert(front[i] == list[i]);
        }
        lemma_found_in(front, shorter, value, row, facts);
        let last = list.len() - 1;
        assert(eval_view(list[last], row, facts) == StepView::Done(items[last]));
        law_values_compare_by_value(items[last], value);
        if shorter.contains(value) {
            let k = choose|k: int| 0 <= k < shorter.len() && shorter[k] == value;
            assert(items[k] == value);
        }
        if items.contains(value) && items[last] != value {
            let k = choose|k: int| 0 <= k < items.len() && items[k] == value;
            assert(shorter[k] == value);
        }
    }
}

/// `IN` holds of a value that is one of the items of the list, and `NOT IN` of the others.
pub proof fn law_membership_looks_for_value(
    expr: ExprView,
    list: Seq<ExprView>,
    items: Seq<ValueView>,
    value: ValueView,
    row: Seq<ValueView>,
    facts: FactsView,
)
    requires
        eval_view(expr, row, facts) == StepView::Done(value),
        items_evaluate(list, items, value, row, facts),
    ensures
        eval_view(ExprView::In { expr: Box::new(expr), list }, row, facts) == truth(
            items.contains(value),
        ),
        eval_view(ExprView::NotIn { expr: Box::new(expr), list }, row, facts) == truth(
            !items.contains(value),
        ),
{
    lemma_found_in(list, items, value, row, facts);
}

/// `LIKE` and the match of a regular expression say of a text what is known of this text and this
/// pattern, and their negations the opposite. Nothing but a text matches.
pub proof fn law_patterns_are_looked_up(
    expr: ExprView,
    pattern: Seq<char>,
    value: ValueView,
    row: Seq<ValueView>,
    facts: FactsView,
    like: spec_fn(Seq<char>, Seq<char>) -> bool,
    regex: spec_fn(Seq<char>, Seq<char>) -> bool,
)
    requires
        eval_view(expr, row, facts) == StepView::Done(value),
        value matches ValueView::String(text) ==> known(
            facts,
            RequestView::Like { text, pattern },
        ) == Some(AnswerView::Truth(like(text, pattern))) && known(
            facts,
            RequestView::Regex { text, pattern },
        ) == Some(AnswerView::Truth(regex(text, pattern))),
    ensures
        ({
            let likes = value matches ValueView::String(text) && like(text, pattern);
            let fits = value matches ValueView::String(text) && regex(text, pattern);
            let inner = Box::new(expr);
            &&& eval_view(ExprView::Like { expr: inner, pattern }, row, facts) == truth(likes)
            &&& eval_view(ExprView::NotLike { expr: inner, pattern }, row, facts) == truth(!likes)
            &&& eval_view(ExprView::Match { expr: inner, pattern }, row, facts) == truth(fits)
            &&& eval_view(ExprView::NotMatch { expr: inner, pattern }, row, facts) == truth(!fits)
        }),
{
}

/// The value of a call of a function.
pub open spec fn called(
    name: Seq<char>,
    args: Seq<ExprView>,
    row: Seq<ValueView>,
    facts: FactsView,
) -> StepView<ValueView> {
    eval_view(ExprView::Function { name, args }, row, facts)
}

proof fn lemma_function_names()
    ensures
        !is_named("UPPER"@, "ABS"@),
        !is_named("LOWER"@, "ABS"@),
        !is_named("LOWER"@, "UPPER"@),
        !is_named("LENGTH"@, "ABS"@),
        !is_named("LENGTH"@, "UPPER"@),
        !is_named("LENGTH"@, "LOWER"@),
        !is_named("COALESCE"@, "ABS"@),
        !is_named("COALESCE"@, "UPPER"@),
        !is_named("COALESCE"@, "LOWER"@),
        !is_named("COALESCE"@, "LENGTH"@),
{
    reveal_strlit("ABS");
    reveal_strlit("UPPER");
    reveal_strlit("LOWER");
    reveal_strlit("LENGTH");
    reveal_strlit("COALESCE");
    assert(lowered("UPPER"@).len() == 5 && lowered("ABS"@).len() == 3);
    assert(lowered("LOWER"@).len() == 5);
    assert(lowered("LENGTH"@).len() == 6);
    assert(lowered("COALESCE"@).len() == 8);
    assert(lowered("UPPER"@)[0] != lowered("LOWER"@)[0]);
}

/// A function is found by its name in any case.
pub proof fn law_function_names_ignore_case(
    name: Seq<char>,
    other: Seq<char>,
    args: Seq<ExprView>,
    row: Seq<ValueView>,
    facts: FactsView,
)
    requires
        lowered(name) == lowered(other),
    ensures
        called(name, args, row, facts) == called(other, args, row, facts),
{
}

/// The absolute value of a whole number is the number or its negation, and not negative unless the
/// number is the smallest of its width. That of a floating point number is the number without its
/// sign. The length of a text is that of its bytes, the letter case functions give what is known of
/// the whole text, and the first value of a list that is not null is the one behind nulls only.
pub proof fn law_functions_compute_their_results(
    args: Seq<ExprView>,
    values: Seq<ValueView>,
    row: Seq<ValueView>,
    facts: FactsView,
)
    requires
        eval_all(args, row, facts) == StepView::Done(values),
        values.len() > 0,
    ensures
        match values[0] {
            ValueView::Int32(v) => called("ABS"@, args, row, facts) matches StepView::Done(
                ValueView::Int32(n),
            ) && (n == v || n == -v) && (n >= 0 || v == i32::MIN),
            ValueView::Int64(v) => called("ABS"@, args, row, facts) matches StepView::Done(
                ValueView::Int64(n),
            ) && (n == v || n == -v) && (n >= 0 || v == i64::MIN),
            ValueView::Float64(bits) => called("ABS"@, args, row, facts) == StepView::Done(
                ValueView::Float64(bits % 0x8000_0000_0000_0000u64),
            ),
            _ => called("ABS"@, args, row, facts) == StepView::Done(ValueView::Null),
        },
        match values[0] {
            ValueView::String(text) => {
                &&& called("UPPER"@, args, row, facts) == StepView::Done(
                    ValueView::String(uppercase_text(text)),
                )
                &&& called("LOWER"@, args, row, facts) == StepView::Done(
                    ValueView::String(lowercase_text(text)),
                )
                &&& encode_utf8(text).len() <= i64::MAX && encode_utf8(text).len() <= usize::MAX
                    ==> called("LENGTH"@, args, row, facts) == StepView::Done(
                    ValueView::Int64(encode_utf8(text).len() as i64),
                )
            },
            _ => {
                &&& called("UPPER"@, args, row, facts) == StepView::Done(ValueView::Null)
                &&& called("LOWER"@, args, row, facts) == StepView::Done(ValueView::Null)
                &&& called("LENGTH"@, args, row, facts) == StepView::Done(ValueView::Null)
            },
        },
        forall|k: int|
            0 <= k < values.len() && #[trigger] values[k] != ValueView::Null && (forall|j: int|
                0 <= j < k ==> #[trigger] values[j] == ValueView::Null) ==> called(
                "COALESCE"@,
                args,
                row,
                facts,
            ) == StepView::Done(values[k]),
        (forall|j: int| 0 <= j < values.len() ==> #[trigger] values[j] == ValueView::Null)
            ==> called("COALESCE"@, args, row, facts) == StepView::Done(ValueView::Null),
{
    lemma_function_names();
    if let ValueView::Float64(bits) = values[0] {
        assert(bits & 0x7FFF_FFFF_FFFF_FFFFu64 == bits % 0x8000_0000_0000_0000u64) by (bit_vector);
    }
    assert forall|k: int|
        0 <= k < values.len() && #[trigger] values[k] != ValueView::Null && (forall|j: int|
            0 <= j < k ==> #[trigger] values[j] == ValueView::Null) implies first_non_null(values)
        == values[k] by {
        lemma_first_non_null(values, k);
    }
    if forall|j: int| 0 <= j < values.len() ==> #[trigger] values[j] == ValueView::Null {
        lemma_all_null(values);
    }
}

proof fn lemma_first_non_null(values: Seq<ValueView>, k: int)
    requires
        0 <= k < values.len(),
        values[k] != ValueView::Null,
        forall|j: int| 0 <= j < k ==> #[trigger] values[j] == ValueView::Null,
    ensures
        first_non_null(values) == values[k],
    decreases values.len(),
{
    if k > 0 {
        assert(values[0] == ValueView::Null);
        let rest = values.skip(1);
        assert forall|j: int| 0 <= j < k - 1 implies #[trigger] rest[j] == ValueView::Null by {
            assert(values[j + 1] == ValueView::Null);
        }
        lemma_first_non_null(rest, k - 1);
    }
}

proof fn lemma_all_null(values: Seq<ValueView>)
    requires
        forall|j: int| 0 <= j < values.len() ==> #[trigger] values[j] == ValueView::Null,
    ensures
        first_non_null(values) == ValueView::Null,
    decreases values.len(),
{
    if values.len() > 0 {
        let rest = values.skip(1);
        assert forall|j: int| 0 <= j < rest.len() implies #[trigger] rest[j] == ValueView::Null by {
            assert(values[j + 1] == ValueView::Null);
        }
        lemma_all_null(rest);
    }
}

/// A column has the value that the row holds at its position, or null behind the end of the row, and
/// a literal has its own value. A list of expressions has their values, one for one.
pub proof fn law_columns_read_the_row(
    column: ColumnRefView,
    value: ValueView,
    exprs: Seq<ExprView>,
    row: Seq<ValueView>,
    facts: FactsView,
)
    ensures
        column.index < row.len() ==> eval_view(ExprView::Column(column), row, facts)
            == StepView::Done(row[column.index as int]),
        column.index >= row.len() ==> eval_view(ExprView::Column(column), row, facts)
            == StepView::Done(ValueView::Null),
        eval_view(ExprView::Literal(value), row, facts) == StepView::Done(value),
        eval_all(exprs, row, facts) matches StepView::Done(values) ==> values.len() == exprs.len()
            && forall|i: int|
            0 <= i < exprs.len() ==> eval_view(#[trigger] exprs[i], row, facts) == StepView::Done(
                values[i],
            ),
    decreases exprs.len(),
{
    if exprs.len() > 0 {
        let front = exprs.drop_last();
        law_columns_read_the_row(column, value, front, row, facts);
        if let StepView::Done(values) = eval_all(exprs, row, facts) {
            let before = eval_all(front, row, facts)->Done_0;
            assert forall|i: int| 0 <= i < exprs.len() implies eval_view(
                #[trigger] exprs[i],
                row,
                facts,
            ) == StepView::Done(values[i]) by {
                if i < front.len() {
                    assert(front[i] == exprs[i]);
                }
            }
        }
    }
}

/// What a test of a document says of the node that its path selects: a path exists just if there is
/// a node, and equals a value just if the node is that null, truth, text or number. Without a node
/// no test holds.
pub proof fn law_document_tests_read_the_node(
    document: Seq<u8>,
    path: Seq<char>,
    expected: ValueView,
    node: Option<JsonView>,
    facts: FactsView,
    same_number: spec_fn(Seq<char>, ValueView) -> bool,
)
    requires
        json_of_bytes(document) is Some,
        known(facts, RequestView::JsonQuery { document, path }) == Some(AnswerView::Node(node)),
        node matches Some(JsonView::Number(text)) ==> known(
            facts,
            RequestView::NumberMatches { text, value: expected },
        ) == Some(AnswerView::Truth(same_number(text, expected))),
    ensures
        path_exists(document, path, facts) == StepView::Done(node is Some),
        path_equals(document, path, expected, facts) == StepView::Done(
            match node {
                None => false,
                Some(JsonView::Null) => expected == ValueView::Null,
                Some(JsonView::Bool(b)) => expected == ValueView::Boolean(b),
                Some(JsonView::String(text)) => expected == ValueView::String(text),
                Some(JsonView::Number(text)) => (expected is Int32 || expected is Int64
                    || expected is Float64) && same_number(text, expected),
                _ => false,
            },
        ),
        !(expected is String) ==> path_contains(document, path, expected, facts) == path_equals(
            document,
            path,
            expected,
            facts,
        ),
        node matches Some(JsonView::String(text)) ==> (expected matches ValueView::String(needle)
            ==> path_contains(document, path, expected, facts) == StepView::Done(
            is_part_of(needle, text),
        )),
{
    if let (Some(JsonView::String(text)), ValueView::String(needle)) = (node, expected) {
        lemma_occurs_in(needle, text);
    }
}

/// A text is made of another one with something in front of it and behind it.
pub open spec fn is_part_of(needle: Seq<char>, text: Seq<char>) -> bool {
    exists|front: Seq<char>, back: Seq<char>|
        #![trigger front + needle + back]
        text == front + needle + back
}

proof fn lemma_occurs_in(needle: Seq<char>, text: Seq<char>)
    ensures
        occurs_in(needle, text) == is_part_of(needle, text),
{
    if occurs_in(needle, text) {
        let at = choose|at: int|
            0 <= at <= text.len() - needle.len() && #[trigger] text.subrange(at, at + needle.len())
                == needle;
        let front = text.take(at);
        let back = text.skip(at + needle.len());
        assert(text =~= front + needle + back);
    }
    if is_part_of(needle, text) {
        let (front, back) = choose|front: Seq<char>, back: Seq<char>|
            #![trigger front + needle + back]
            text == front + needle + back;
        let at = front.len() as int;
        assert(text.subrange(at, at + needle.len()) =~= needle);
    }
}

proof fn lemma_document_function_names()
    ensures
        forall|name: Seq<char>, other: Seq<char>|
            name.len() != other.len() ==> !(#[trigger] is_named(name, other)),
        "ABS"@.len() == 3,
        "UPPER"@.len() == 5,
        "LOWER"@.len() == 5,
        "LENGTH"@.len() == 6,
        "COALESCE"@.len() == 8,
        "JSONB_EXISTS"@.len() == 12,
        "JSONB_PATH_EQ"@.len() == 13,
        "JSONB_CONTAINS"@.len() == 14,
{
    reveal_strlit("ABS");
    reveal_strlit("UPPER");
    reveal_strlit("LOWER");
    reveal_strlit("LENGTH");
    reveal_strlit("COALESCE");
    reveal_strlit("JSONB_EXISTS");
    reveal_strlit("JSONB_PATH_EQ");
    reveal_strlit("JSONB_CONTAINS");
    assert forall|name: Seq<char>, other: Seq<char>| name.len() != other.len() implies !(
    #[trigger] is_named(name, other)) by {
        assert(lowered(name).len() == name.len() && lowered(other).len() == other.len());
    }
}

/// The functions on documents test the document of the first argument at the path of the second
/// one, each in its own way. They hold of no other arguments.
pub proof fn law_document_functions_test_documents(
    args: Seq<ExprView>,
    values: Seq<ValueView>,
    row: Seq<ValueView>,
    facts: FactsView,
)
    requires
        eval_all(args, row, facts) == StepView::Done(values),
    ensures
        values.len() == 3 ==> match (values[0], values[1]) {
            (ValueView::Jsonb(document), ValueView::String(path)) => {
                &&& called("JSONB_PATH_EQ"@, args, row, facts) == boolean_step(
                    path_equals(document, path, values[2], facts),
                )
                &&& called("JSONB_CONTAINS"@, args, row, facts) == boolean_step(
                    path_contains(document, path, values[2], facts),
                )
                &&& called("JSONB_EXISTS"@, args, row, facts) == boolean_step(
                    path_exists(document, path, facts),
                )
            },
            _ => {
                &&& called("JSONB_PATH_EQ"@, args, row, facts) == truth(false)
                &&& called("JSONB_CONTAINS"@, args, row, facts) == truth(false)
                &&& called("JSONB_EXISTS"@, args, row, facts) == truth(false)
            },
        },
{
    lemma_document_function_names();
}

} // verus!
