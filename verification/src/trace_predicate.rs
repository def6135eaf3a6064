//! Predicates that are compiled for the rows of a dataflow.
//!
//! Tests of paths in documents are compiled to tests of the raw text of a document.
use vstd::prelude::*;
use vstd::utf8::{decode_utf8, valid_utf8};

use crate::eval::{
    clone_bytes, column_value, eval_expr_with, eval_view, find_truth, is_named, is_numeric, named,
    plain_step, truth_of, Step, StepView,
};
use crate::expr::{clone_expr, exprs_view, lemma_list_views, BinaryOp, Expr, ExprView, UnaryOp};
use crate::facts::{known, AnswerView, EvalAnswer, EvalFacts, EvalRequest, FactsView, RequestView};
use crate::json::utf8_text;
use crate::json_text::{check_float_text, is_float_text};
use crate::text::{chars_of, same_text};
use crate::value::{same_bytes, values_view, Value, ValueView};

verus! {

/// A compiled predicate.
#[derive(Debug)]
#[allow(inconsistent_fields)]
pub enum CompiledTracePredicate {
    JsonPathEq { column_index: usize, path: String, expected: Value },
    JsonPathExists { column_index: usize, path: String },
    And(Box<CompiledTracePredicate>, Box<CompiledTracePredicate>),
    Or(Box<CompiledTracePredicate>, Box<CompiledTracePredicate>),
    Not(Box<CompiledTracePredicate>),
    Generic(Expr),
}

/// What a compiled predicate tests.
#[allow(inconsistent_fields)]
pub enum PredicateView {
    JsonPathEq { column_index: usize, path: Seq<char>, expected: ValueView },
    JsonPathExists { column_index: usize, path: Seq<char> },
    And(Box<PredicateView>, Box<PredicateView>),
    Or(Box<PredicateView>, Box<PredicateView>),
    Not(Box<PredicateView>),
    Generic(ExprView),
}

impl CompiledTracePredicate {
    /// What the predicate tests.
    pub open spec fn view(&self) -> PredicateView
        decreases self,
    {
        match self {
            CompiledTracePredicate::JsonPathEq { column_index, path, expected } =>
            PredicateView::JsonPathEq {
                column_index: *column_index,
                path: path@,
                expected: expected@,
            },
            CompiledTracePredicate::JsonPathExists { column_index, path } =>
            PredicateView::JsonPathExists { column_index: *column_index, path: path@ },
            CompiledTracePredicate::And(left, right) => PredicateView::And(
                Box::new(left.view()),
                Box::new(right.view()),
            ),
            CompiledTracePredicate::Or(left, right) => PredicateView::Or(
                Box::new(left.view()),
                Box::new(right.view()),
            ),
            CompiledTracePredicate::Not(inner) => PredicateView::Not(Box::new(inner.view())),
            CompiledTracePredicate::Generic(expr) => PredicateView::Generic(expr@),
        }
    }
}

/// What compiling came to.
pub open spec fn predicate_step(step: Step<CompiledTracePredicate>) -> StepView<PredicateView> {
    match step {
        Step::Done(predicate) => StepView::Done(predicate.view()),
        Step::Need(request) => StepView::Need(request@),
    }
}

/// What compiling a call of a function came to.
pub open spec fn optional_predicate_step(step: Step<Option<CompiledTracePredicate>>) -> StepView<
    Option<PredicateView>,
> {
    match step {
        Step::Done(Some(predicate)) => StepView::Done(Some(predicate.view())),
        Step::Done(None) => StepView::Done(None),
        Step::Need(request) => StepView::Need(request@),
    }
}

/// A test of a document, if its path is a simple one.
pub open spec fn with_simple_path(
    path: Seq<char>,
    predicate: PredicateView,
    facts: FactsView,
) -> StepView<Option<PredicateView>> {
    match truth_of(RequestView::SimplePath { path }, facts) {
        StepView::Done(true) => StepView::Done(Some(predicate)),
        StepView::Done(false) => StepView::Done(None),
        StepView::Need(request) => StepView::Need(request),
    }
}

/// The text of a path that an argument gives.
pub open spec fn path_of(arg: ExprView) -> Option<Seq<char>> {
    match arg {
        ExprView::Literal(ValueView::String(path)) => Some(path),
        _ => None,
    }
}

/// The column that an argument gives.
pub open spec fn column_of_arg(arg: ExprView) -> Option<usize> {
    match arg {
        ExprView::Column(column) => Some(column.index),
        _ => None,
    }
}

/// The value that an argument gives.
pub open spec fn literal_of(arg: ExprView) -> Option<ValueView> {
    match arg {
        ExprView::Literal(value) => Some(value),
        _ => None,
    }
}

/// A call of a function as a test of a document.
pub open spec fn compiled_call(name: Seq<char>, args: Seq<ExprView>, facts: FactsView) -> StepView<
    Option<PredicateView>,
> {
    if is_named(name, "JSONB_PATH_EQ"@) && args.len() >= 3 {
        match (column_of_arg(args[0]), path_of(args[1]), literal_of(args[2])) {
            (Some(column_index), Some(path), Some(expected)) => with_simple_path(
                path,
                PredicateView::JsonPathEq { column_index, path, expected },
                facts,
            ),
            _ => StepView::Done(None),
        }
    } else if is_named(name, "JSONB_EXISTS"@) && args.len() >= 2 {
        match (column_of_arg(args[0]), path_of(args[1])) {
            (Some(column_index), Some(path)) => with_simple_path(
                path,
                PredicateView::JsonPathExists { column_index, path },
                facts,
            ),
            _ => StepView::Done(None),
        }
    } else {
        StepView::Done(None)
    }
}

/// An expression as a predicate.
pub open spec fn compiled(expr: ExprView, facts: FactsView) -> StepView<PredicateView>
    decreases expr,
{
    match expr {
        ExprView::Function { name, args } => match compiled_call(name, args, facts) {
            StepView::Done(Some(predicate)) => StepView::Done(predicate),
            StepView::Done(None) => StepView::Done(PredicateView::Generic(expr)),
            StepView::Need(request) => StepView::Need(request),
        },
        ExprView::BinaryOp { left, op, right } => if op == BinaryOp::And || op == BinaryOp::Or {
            match compiled(*left, facts) {
                StepView::Done(l) => match compiled(*right, facts) {
                    StepView::Done(r) => StepView::Done(
                        if op == BinaryOp::And {
                            PredicateView::And(Box::new(l), Box::new(r))
                        } else {
                            PredicateView::Or(Box::new(l), Box::new(r))
                        },
                    ),
                    StepView::Need(request) => StepView::Need(request),
                },
                StepView::Need(request) => StepView::Need(request),
            }
        } else {
            StepView::Done(PredicateView::Generic(expr))
        },
        ExprView::UnaryOp { op, expr: inner } => if op == UnaryOp::Not {
            match compiled(*inner, facts) {
                StepView::Done(predicate) => StepView::Done(
                    if predicate is Generic {
                        PredicateView::Generic(expr)
                    } else {
                        PredicateView::Not(Box::new(predicate))
                    },
                ),
                StepView::Need(request) => StepView::Need(request),
            }
        } else {
            StepView::Done(PredicateView::Generic(expr))
        },
        _ => StepView::Done(PredicateView::Generic(expr)),
    }
}

/// Whether a raw text stands for a value.
pub open spec fn raw_matches(raw: Seq<u8>, expected: ValueView, facts: FactsView) -> StepView<bool> {
    match expected {
        ValueView::Null => StepView::Done(raw == seq![0x6Eu8, 0x75u8, 0x6Cu8, 0x6Cu8]),
        ValueView::Boolean(value) => StepView::Done(
            if value {
                raw == seq![0x74u8, 0x72u8, 0x75u8, 0x65u8]
            } else {
                raw == seq![0x66u8, 0x61u8, 0x6Cu8, 0x73u8, 0x65u8]
            },
        ),
        ValueView::String(value) => {
            let request = RequestView::DecodeString { literal: raw };
            match known(facts, request) {
                Some(AnswerView::Decoded(Some(text))) => StepView::Done(text == value),
                Some(AnswerView::Decoded(None)) => StepView::Done(false),
                _ => StepView::Need(request),
            }
        },
        _ => if is_numeric(expected) && valid_utf8(raw) && is_float_text(decode_utf8(raw)) {
            truth_of(
                RequestView::NumberMatches { text: decode_utf8(raw), value: expected },
                facts,
            )
        } else {
            StepView::Done(false)
        },
    }
}

/// The raw text that a path selects in a column of a row. A column that holds no document has
/// none.
pub open spec fn extracted(
    row: Seq<ValueView>,
    column_index: usize,
    path: Seq<char>,
    facts: FactsView,
) -> StepView<Option<Seq<u8>>> {
    match column_value(row, column_index) {
        ValueView::Jsonb(document) => {
            let request = RequestView::SimpleExtract { document, path };
            match known(facts, request) {
                Some(AnswerView::Raw(raw)) => StepView::Done(raw),
                _ => StepView::Need(request),
            }
        },
        _ => StepView::Done(None),
    }
}

/// Whether a predicate holds on a row.
pub open spec fn holds(predicate: PredicateView, row: Seq<ValueView>, facts: FactsView) -> StepView<
    bool,
>
    decreases predicate,
{
    match predicate {
        PredicateView::JsonPathEq { column_index, path, expected } => match extracted(
            row,
            column_index,
            path,
            facts,
        ) {
            StepView::Done(Some(raw)) => raw_matches(raw, expected, facts),
            StepView::Done(None) => StepView::Done(false),
            StepView::Need(request) => StepView::Need(request),
        },
        PredicateView::JsonPathExists { column_index, path } => match extracted(
            row,
            column_index,
            path,
            facts,
        ) {
            StepView::Done(raw) => StepView::Done(raw is Some),
            StepView::Need(request) => StepView::Need(request),
        },
        PredicateView::And(left, right) => match holds(*left, row, facts) {
            StepView::Done(true) => holds(*right, row, facts),
            other => other,
        },
        PredicateView::Or(left, right) => match holds(*left, row, facts) {
            StepView::Done(false) => holds(*right, row, facts),
            other => other,
        },
        PredicateView::Not(inner) => match holds(*inner, row, facts) {
            StepView::Done(truth) => StepView::Done(!truth),
            other => other,
        },
        PredicateView::Generic(expr) => match eval_view(expr, row, facts) {
            StepView::Done(value) => StepView::Done(value == ValueView::Boolean(true)),
            StepView::Need(request) => StepView::Need(request),
        },
    }
}

/// Compares a raw text with a value.
pub fn trace_json_raw_eq_value(raw: &Vec<u8>, expected: &Value, facts: &EvalFacts) -> (result: Step<
    bool,
>)
    ensures
        plain_step(result) == raw_matches(raw@, expected@, facts@),
{
    match expected {
        Value::Null => {
            let text: [u8; 4] = [0x6E, 0x75, 0x6C, 0x6C];
            assert(text@ =~= seq![0x6Eu8, 0x75u8, 0x6Cu8, 0x6Cu8]);
            Step::Done(same_bytes(raw.as_slice(), text.as_slice()))
        },
        Value::Boolean(value) => {
            if *value {
                let text: [u8; 4] = [0x74, 0x72, 0x75, 0x65];
                assert(text@ =~= seq![0x74u8, 0x72u8, 0x75u8, 0x65u8]);
                Step::Done(same_bytes(raw.as_slice(), text.as_slice()))
            } else {
                let text: [u8; 5] = [0x66, 0x61, 0x6C, 0x73, 0x65];
                assert(text@ =~= seq![0x66u8, 0x61u8, 0x6Cu8, 0x73u8, 0x65u8]);
                Step::Done(same_bytes(raw.as_slice(), text.as_slice()))
            }
        },
        Value::Int32(_) => trace_json_raw_number_eq(raw, expected, facts),
        Value::Int64(_) => trace_json_raw_number_eq(raw, expected, facts),
        Value::Float64(_) => trace_json_raw_number_eq(raw, expected, facts),
        Value::String(value) => {
            let request = EvalRequest::DecodeString { literal: clone_bytes(raw) };
            match facts.find(&request) {
                Some(EvalAnswer::Decoded(Some(text))) => Step::Done(
                    same_text(text.as_str(), value.as_str()),
                ),
                Some(EvalAnswer::Decoded(None)) => Step::Done(false),
                _ => Step::Need(request),
            }
        },
        _ => Step::Done(false),
    }
}

/// Compares a raw text with a number.
fn trace_json_raw_number_eq(raw: &Vec<u8>, expected: &Value, facts: &EvalFacts) -> (result: Step<bool>)
    requires
        is_numeric(expected@),
    ensures
        plain_step(result) == raw_matches(raw@, expected@, facts@),
{
    match utf8_text(raw.as_slice()) {
        Some(text) => {
            if check_float_text(chars_of(text.as_str()).as_slice()) {
                find_truth(EvalRequest::NumberMatches { text, value: expected.clone() }, facts)
            } else {
                Step::Done(false)
            }
        },
        None => Step::Done(false),
    }
}

fn extract_raw<'a>(
    row: &[Value],
    column_index: usize,
    path: &String,
    facts: &'a EvalFacts,
) -> (result: Step<Option<&'a Vec<u8>>>)
    ensures
        (match result {
            Step::Done(Some(raw)) => StepView::Done(Some(raw@)),
            Step::Done(None) => StepView::Done(None),
            Step::Need(request) => StepView::Need(request@),
        }) == extracted(values_view(row@), column_index, path@, facts@),
{
    if column_index >= row.len() {
        return Step::Done(None);
    }
    assert(values_view(row@)[column_index as int] == row@[column_index as int]@);
    match &row[column_index] {
        Value::Jsonb(document) => {
            let request = EvalRequest::SimpleExtract {
                document: clone_bytes(document),
                path: path.clone(),
            };
            match facts.find(&request) {
                Some(EvalAnswer::Raw(Some(raw))) => Step::Done(Some(raw)),
                Some(EvalAnswer::Raw(None)) => Step::Done(None),
                _ => Step::Need(request),
            }
        },
        _ => Step::Done(None),
    }
}

impl CompiledTracePredicate {
    /// Compiles an expression to a predicate.
    pub fn compile(expr: &Expr, facts: &EvalFacts) -> (result: Step<CompiledTracePredicate>)
        ensures
            predicate_step(result) == compiled(expr@, facts@),
        decreases expr,
    {
        broadcast use lemma_list_views;

        match expr {
            Expr::Function { name, args } => match CompiledTracePredicate::compile_json_function(
                name.as_str(),
                args,
                facts,
            ) {
                Step::Done(Some(predicate)) => Step::Done(predicate),
                Step::Done(None) => Step::Done(CompiledTracePredicate::Generic(clone_expr(expr))),
                Step::Need(request) => Step::Need(request),
            },
            Expr::BinaryOp { left, op, right } => if *op == BinaryOp::And || *op == BinaryOp::Or {
                let l = match CompiledTracePredicate::compile(left, facts) {
                    Step::Done(predicate) => predicate,
                    Step::Need(request) => {
                        return Step::Need(request);
                    },
                };
                let r = match CompiledTracePredicate::compile(right, facts) {
                    Step::Done(predicate) => predicate,
                    Step::Need(request) => {
                        return Step::Need(request);
                    },
                };
                if *op == BinaryOp::And {
                    Step::Done(CompiledTracePredicate::And(Box::new(l), Box::new(r)))
                } else {
                    Step::Done(CompiledTracePredicate::Or(Box::new(l), Box::new(r)))
                }
            } else {
                Step::Done(CompiledTracePredicate::Generic(clone_expr(expr)))
            },
            Expr::UnaryOp { op, expr: inner } => if *op == UnaryOp::Not {
                match CompiledTracePredicate::compile(inner, facts) {
                    Step::Done(predicate) => if predicate.is_boolean_output() {
                        Step::Done(CompiledTracePredicate::Not(Box::new(predicate)))
                    } else {
                        Step::Done(CompiledTracePredicate::Generic(clone_expr(expr)))
                    },
                    Step::Need(request) => Step::Need(request),
                }
            } else {
                Step::Done(CompiledTracePredicate::Generic(clone_expr(expr)))
            },
            _ => Step::Done(CompiledTracePredicate::Generic(clone_expr(expr))),
        }
    }

    /// Compiles a call of a function to a test of a document.
    pub fn compile_json_function(name: &str, args: &Vec<Expr>, facts: &EvalFacts) -> (result: Step<
        Option<CompiledTracePredicate>,
    >)
        ensures
            optional_predicate_step(result) == compiled_call(name@, exprs_view(args@), facts@),
    {
        let ghost views = exprs_view(args@);
        let chars = chars_of(name);
        if named(chars.as_slice(), "JSONB_PATH_EQ") && args.len() >= 3 {
            assert(views[0] == args@[0]@ && views[1] == args@[1]@ && views[2] == args@[2]@);
            match (&args[0], &args[1], &args[2]) {
                (
                    Expr::Column(column),
                    Expr::Literal(Value::String(path)),
                    Expr::Literal(expected),
                ) => match find_truth(EvalRequest::SimplePath { path: path.clone() }, facts) {
                    Step::Done(true) => Step::Done(
                        Some(
                            CompiledTracePredicate::JsonPathEq {
                                column_index: column.index,
                                path: path.clone(),
                                expected: expected.clone(),
                            },
                        ),
                    ),
                    Step::Done(false) => Step::Done(None),
                    Step::Need(request) => Step::Need(request),
                },
                _ => Step::Done(None),
            }
        } else if named(chars.as_slice(), "JSONB_EXISTS") && args.len() >= 2 {
            assert(views[0] == args@[0]@ && views[1] == args@[1]@);
            match (&args[0], &args[1]) {
                (Expr::Column(column), Expr::Literal(Value::String(path))) => match find_truth(
                    EvalRequest::SimplePath { path: path.clone() },
                    facts,
                ) {
                    Step::Done(true) => Step::Done(
                        Some(
                            CompiledTracePredicate::JsonPathExists {
                                column_index: column.index,
                                path: path.clone(),
                            },
                        ),
                    ),
                    Step::Done(false) => Step::Done(None),
                    Step::Need(request) => Step::Need(request),
                },
                _ => Step::Done(None),
            }
        } else {
            Step::Done(None)
        }
    }

    /// Tells whether the expression of the predicate gives a truth on every row.
    pub fn is_boolean_output(&self) -> (result: bool)
        ensures
            result == !(self.view() is Generic),
    {
        match self {
            CompiledTracePredicate::Generic(_) => false,
            _ => true,
        }
    }

    /// Tells whether the predicate holds on a row.
    pub fn eval(&self, row: &[Value], facts: &EvalFacts) -> (result: Step<bool>)
        ensures
            plain_step(result) == holds(self.view(), values_view(row@), facts@),
        decreases self,
    {
        match self {
            CompiledTracePredicate::JsonPathEq { column_index, path, expected } => match extract_raw(
                row,
                *column_index,
                path,
                facts,
            ) {
                Step::Done(Some(raw)) => trace_json_raw_eq_value(raw, expected, facts),
                Step::Done(None) => Step::Done(false),
                Step::Need(request) => Step::Need(request),
            },
            CompiledTracePredicate::JsonPathExists { column_index, path } => match extract_raw(
                row,
                *column_index,
                path,
                facts,
            ) {
                Step::Done(raw) => Step::Done(raw.is_some()),
                Step::Need(request) => Step::Need(request),
            },
            CompiledTracePredicate::And(left, right) => match left.eval(row, facts) {
                Step::Done(true) => right.eval(row, facts),
                other => other,
            },
            CompiledTracePredicate::Or(left, right) => match left.eval(row, facts) {
                Step::Done(false) => right.eval(row, facts),
                other => other,
            },
            CompiledTracePredicate::Not(inner) => match inner.eval(row, facts) {
                Step::Done(truth) => Step::Done(!truth),
                other => other,
            },
            CompiledTracePredicate::Generic(expr) => match eval_expr_with(expr, row, facts) {
                Step::Done(value) => Step::Done(matches!(value, Value::Boolean(true))),
                Step::Need(request) => Step::Need(request),
            },
        }
    }
}

/// Tells whether an expression holds on a row.
pub fn eval_predicate(expr: &Expr, row: &[Value], facts: &EvalFacts) -> (result: Step<bool>)
    ensures
        plain_step(result) == holds(PredicateView::Generic(expr@), values_view(row@), facts@),
{
    match eval_expr_with(expr, row, facts) {
        Step::Done(value) => Step::Done(matches!(value, Value::Boolean(true))),
        Step::Need(request) => Step::Need(request),
    }
}

/// The tests of documents in an expression come out as the functions that they stand for, as far
/// as both are known.
pub open spec fn tests_agree(expr: ExprView, row: Seq<ValueView>, facts: FactsView) -> bool
    decreases expr,
{
    match expr {
        ExprView::Function { name, args } => match compiled_call(name, args, facts) {
            StepView::Done(Some(test)) => match (holds(test, row, facts), eval_view(expr, row, facts)) {
                (StepView::Done(truth), StepView::Done(value)) => value == ValueView::Boolean(truth),
                _ => true,
            },
            _ => true,
        },
        ExprView::BinaryOp { left, right, .. } => tests_agree(*left, row, facts) && tests_agree(
            *right,
            row,
            facts,
        ),
        ExprView::UnaryOp { expr, .. } => tests_agree(*expr, row, facts),
        _ => true,
    }
}

/// A compiled predicate holds just on the rows on which its expression is true, if the tests of
/// documents in it come out as the functions that they stand for.
pub proof fn law_compiled_predicate_agrees(expr: ExprView, row: Seq<ValueView>, facts: FactsView)
    requires
        compiled(expr, facts) is Done,
        holds(compiled(expr, facts)->Done_0, row, facts) is Done,
        eval_view(expr, row, facts) is Done,
        tests_agree(expr, row, facts),
    ensures
        holds(compiled(expr, facts)->Done_0, row, facts)->Done_0 == (eval_view(
            expr,
            row,
            facts,
        )->Done_0 == ValueView::Boolean(true)),
        !(compiled(expr, facts)->Done_0 is Generic) ==> eval_view(
            expr,
            row,
            facts,
        )->Done_0 is Boolean,
    decreases expr,
{
    match expr {
        ExprView::BinaryOp { left, op, right } => {
            if op == BinaryOp::And || op == BinaryOp::Or {
                let l = compiled(*left, facts)->Done_0;
                law_compiled_predicate_agrees(*left, row, facts);
                if holds(*right_of(compiled(expr, facts)->Done_0), row, facts) is Done {
                    law_compiled_predicate_agrees(*right, row, facts);
                }
            }
        },
        ExprView::UnaryOp { op, expr: inner } => {
            if op == UnaryOp::Not && !(compiled(*inner, facts)->Done_0 is Generic) {
                law_compiled_predicate_agrees(*inner, row, facts);
            }
        },
        _ => {},
    }
}

spec fn right_of(predicate: PredicateView) -> Box<PredicateView> {
    match predicate {
        PredicateView::And(_, right) => right,
        PredicateView::Or(_, right) => right,
        other => Box::new(other),
    }
}

/// A call is compiled to a test of the document in the column that it names, at the path that it
/// names: to a comparison with its literal, or to a test that something is there. This is so just
/// where the path is a simple one.
pub proof fn law_document_calls_become_tests(
    name: Seq<char>,
    args: Seq<ExprView>,
    facts: FactsView,
)
    ensures
        compiled_call(name, args, facts) matches StepView::Done(Some(test)) ==> {
            &&& args.len() >= 2
            &&& args[0] is Column
            &&& args[1] is Literal
            &&& args[1]->Literal_0 is String
            &&& known(
                facts,
                RequestView::SimplePath { path: args[1]->Literal_0->String_0 },
            ) == Some(AnswerView::Truth(true))
            &&& test matches PredicateView::JsonPathEq { column_index, path, expected } ==> {
                &&& is_named(name, "JSONB_PATH_EQ"@)
                &&& column_index == args[0]->Column_0.index
                &&& path == args[1]->Literal_0->String_0
                &&& args.len() >= 3
                &&& args[2] == ExprView::Literal(expected)
            }
            &&& test matches PredicateView::JsonPathExists { column_index, path } ==> {
                &&& is_named(name, "JSONB_EXISTS"@)
                &&& column_index == args[0]->Column_0.index
                &&& path == args[1]->Literal_0->String_0
            }
            &&& test is JsonPathEq || test is JsonPathExists
        },
        args.len() >= 3 && args[0] is Column && args[1] is Literal && args[1]->Literal_0 is String
            && args[2] is Literal && is_named(name, "JSONB_PATH_EQ"@) && known(
            facts,
            RequestView::SimplePath { path: args[1]->Literal_0->String_0 },
        ) == Some(AnswerView::Truth(true)) ==> (compiled_call(name, args, facts) matches StepView::Done(
            Some(test),
        ) && test is JsonPathEq),
        args.len() >= 2 && args[0] is Column && args[1] is Literal && args[1]->Literal_0 is String
            && is_named(name, "JSONB_EXISTS"@) && !is_named(name, "JSONB_PATH_EQ"@) && known(
            facts,
            RequestView::SimplePath { path: args[1]->Literal_0->String_0 },
        ) == Some(AnswerView::Truth(true)) ==> (compiled_call(name, args, facts) matches StepView::Done(
            Some(test),
        ) && test is JsonPathExists),
{
}

/// The bytes are the letters of a word.
pub open spec fn spells(raw: Seq<u8>, word: Seq<char>) -> bool {
    raw.len() == word.len() && forall|i: int|
        0 <= i < raw.len() ==> (#[trigger] raw[i]) as int == word[i] as int
}

/// The part of a document is null, true or false where its text is that word. A text is compared
/// with the text that its literal stands for.
pub proof fn law_raw_texts_stand_for_values(raw: Seq<u8>, text: Seq<char>, facts: FactsView)
    ensures
        raw_matches(raw, ValueView::Null, facts) == StepView::<bool>::Done(spells(raw, "null"@)),
        raw_matches(raw, ValueView::Boolean(true), facts) == StepView::<bool>::Done(
            spells(raw, "true"@),
        ),
        raw_matches(raw, ValueView::Boolean(false), facts) == StepView::<bool>::Done(
            spells(raw, "false"@),
        ),
        known(facts, RequestView::DecodeString { literal: raw }) matches Some(
            AnswerView::Decoded(decoded),
        ) ==> raw_matches(raw, ValueView::String(text), facts) == StepView::<bool>::Done(
            decoded == Some(text),
        ),
{
    reveal_strlit("null");
    reveal_strlit("true");
    reveal_strlit("false");
    if spells(raw, "null"@) {
        assert(raw[0] as int == 'n' as int && raw[1] as int == 'u' as int && raw[2] as int
            == 'l' as int && raw[3] as int == 'l' as int);
        assert(raw =~= seq![0x6Eu8, 0x75u8, 0x6Cu8, 0x6Cu8]);
    }
    if spells(raw, "true"@) {
        assert(raw[0] as int == 't' as int && raw[1] as int == 'r' as int && raw[2] as int
            == 'u' as int && raw[3] as int == 'e' as int);
        assert(raw =~= seq![0x74u8, 0x72u8, 0x75u8, 0x65u8]);
    }
    if spells(raw, "false"@) {
        assert(raw[0] as int == 'f' as int && raw[1] as int == 'a' as int && raw[2] as int
            == 'l' as int && raw[3] as int == 's' as int && raw[4] as int == 'e' as int);
        assert(raw =~= seq![0x66u8, 0x61u8, 0x6Cu8, 0x73u8, 0x65u8]);
    }
}

/// A test of a document looks at the part that its path selects in the document of its column. A row
/// without a document there, or a document without that part, does not pass.
pub proof fn law_tests_look_at_their_part(
    column_index: usize,
    path: Seq<char>,
    expected: ValueView,
    row: Seq<ValueView>,
    facts: FactsView,
    document: Seq<u8>,
    part: Option<Seq<u8>>,
)
    requires
        column_value(row, column_index) == ValueView::Jsonb(document) ==> known(
            facts,
            RequestView::SimpleExtract { document, path },
        ) == Some(AnswerView::Raw(part)),
    ensures
        !(column_value(row, column_index) is Jsonb) ==> holds(
            PredicateView::JsonPathExists { column_index, path },
            row,
            facts,
        ) == StepView::<bool>::Done(false) && holds(
            PredicateView::JsonPathEq { column_index, path, expected },
            row,
            facts,
        ) == StepView::<bool>::Done(false),
        column_value(row, column_index) == ValueView::Jsonb(document) ==> {
            &&& holds(
                PredicateView::JsonPathExists { column_index, path },
                row,
                facts,
            ) == StepView::<bool>::Done(part is Some)
            &&& part is None ==> holds(
                PredicateView::JsonPathEq { column_index, path, expected },
                row,
                facts,
            ) == StepView::<bool>::Done(false)
            &&& part matches Some(raw) ==> holds(
                PredicateView::JsonPathEq { column_index, path, expected },
                row,
                facts,
            ) == raw_matches(raw, expected, facts)
        },
{
}

} // verus!
