//! Results of computations that the evaluator does not make itself.
//!
//! Floating point arithmetic, pattern matching, path queries on documents and the order
//! between values of different kinds are computed by the caller. The evaluator looks the
//! results up in [`EvalFacts`] and asks for the first one that is missing.
use vstd::prelude::*;

use crate::json::{JsonView, JsonbValue};
use crate::value::{same_bytes, Value, ValueView};

verus! {

/// Arithmetic on numbers.
#[derive(Clone, Copy, Debug, PartialEq, Eq, Structural)]
pub enum ArithmeticOp {
    Add,
    Sub,
    Mul,
    Div,
    Mod,
}

/// How two values compare.
#[derive(Clone, Copy, Debug, PartialEq, Eq, Structural)]
pub enum Comparison {
    Less,
    Equal,
    Greater,
    Unordered,
}

/// A result that the evaluator needs.
#[derive(Debug)]
#[allow(inconsistent_fields)]
pub enum EvalRequest {
    /// How two values compare of which the kinds do not fix the order.
    Compare { left: Value, right: Value },
    /// Whether two values are equal in the sense of a join.
    Equals { left: Value, right: Value },
    /// Arithmetic on two numbers, as double precision numbers.
    Arithmetic { op: ArithmeticOp, left: Value, right: Value },
    /// Whether a text matches a `LIKE` pattern.
    Like { text: String, pattern: String },
    /// Whether a text matches a regular expression.
    Regex { text: String, pattern: String },
    /// The first node of a document that a path selects.
    JsonQuery { document: Vec<u8>, path: String },
    /// The text form of the first node of a document that a path selects.
    JsonNodeText { document: Vec<u8>, path: String },
    /// Whether a number text and a number value are equal up to rounding.
    NumberMatches { text: String, value: Value },
    /// Whether a path is a simple one.
    SimplePath { path: String },
    /// The raw text, without white space around it, that a simple path selects.
    SimpleExtract { document: Vec<u8>, path: String },
    /// The text that a JSON string literal stands for.
    DecodeString { literal: Vec<u8> },
}

/// A result that the evaluator was given.
#[derive(Debug)]
pub enum EvalAnswer {
    Comparison(Comparison),
    Number(u64),
    Truth(bool),
    Node(Option<JsonbValue>),
    Text(String),
    Raw(Option<Vec<u8>>),
    Decoded(Option<String>),
}

/// What an [`EvalRequest`] asks for.
#[allow(inconsistent_fields)]
pub enum RequestView {
    Compare { left: ValueView, right: ValueView },
    Equals { left: ValueView, right: ValueView },
    Arithmetic { op: ArithmeticOp, left: ValueView, right: ValueView },
    Like { text: Seq<char>, pattern: Seq<char> },
    Regex { text: Seq<char>, pattern: Seq<char> },
    JsonQuery { document: Seq<u8>, path: Seq<char> },
    JsonNodeText { document: Seq<u8>, path: Seq<char> },
    NumberMatches { text: Seq<char>, value: ValueView },
    SimplePath { path: Seq<char> },
    SimpleExtract { document: Seq<u8>, path: Seq<char> },
    DecodeString { literal: Seq<u8> },
}

/// What an [`EvalAnswer`] says.
pub enum AnswerView {
    Comparison(Comparison),
    Number(u64),
    Truth(bool),
    Node(Option<JsonView>),
    Text(Seq<char>),
    Raw(Option<Seq<u8>>),
    Decoded(Option<Seq<char>>),
}

impl View for EvalRequest {
    type V = RequestView;

    open spec fn view(&self) -> RequestView {
        match self {
            EvalRequest::Compare { left, right } => RequestView::Compare {
                left: left@,
                right: right@,
            },
            EvalRequest::Equals { left, right } => RequestView::Equals {
                left: left@,
                right: right@,
            },
            EvalRequest::Arithmetic { op, left, right } => RequestView::Arithmetic {
                op: *op,
                left: left@,
                right: right@,
            },
            EvalRequest::Like { text, pattern } => RequestView::Like {
                text: text@,
                pattern: pattern@,
            },
            EvalRequest::Regex { text, pattern } => RequestView::Regex {
                text: text@,
                pattern: pattern@,
            },
            EvalRequest::JsonQuery { document, path } => RequestView::JsonQuery {
                document: document@,
                path: path@,
            },
            EvalRequest::JsonNodeText { document, path } => RequestView::JsonNodeText {
                document: document@,
                path: path@,
            },
            EvalRequest::NumberMatches { text, value } => RequestView::NumberMatches {
                text: text@,
                value: value@,
            },
            EvalRequest::SimplePath { path } => RequestView::SimplePath { path: path@ },
            EvalRequest::SimpleExtract { document, path } => RequestView::SimpleExtract {
                document: document@,
                path: path@,
            },
            EvalRequest::DecodeString { literal } => RequestView::DecodeString {
                literal: literal@,
            },
        }
    }
}

impl View for EvalAnswer {
    type V = AnswerView;

    open spec fn view(&self) -> AnswerView {
        match self {
            EvalAnswer::Comparison(comparison) => AnswerView::Comparison(*comparison),
            EvalAnswer::Number(bits) => AnswerView::Number(*bits),
            EvalAnswer::Truth(truth) => AnswerView::Truth(*truth),
            EvalAnswer::Node(node) => AnswerView::Node(
                match node {
                    Some(node) => Some(node@),
                    None => None,
                },
            ),
            EvalAnswer::Text(text) => AnswerView::Text(text@),
            EvalAnswer::Raw(raw) => AnswerView::Raw(
                match raw {
                    Some(raw) => Some(raw@),
                    None => None,
                },
            ),
            EvalAnswer::Decoded(text) => AnswerView::Decoded(
                match text {
                    Some(text) => Some(text@),
                    None => None,
                },
            ),
        }
    }
}

/// Requests with their answers.
pub type FactsView = Seq<(RequestView, AnswerView)>;

/// The first answer to a request.
pub open spec fn known(facts: FactsView, request: RequestView) -> Option<AnswerView>
    decreases facts.len(),
{
    if facts.len() == 0 {
        None
    } else if known(facts.drop_last(), request) is Some {
        known(facts.drop_last(), request)
    } else if facts.last().0 == request {
        Some(facts.last().1)
    } else {
        None
    }
}

/// Tells whether two requests ask for the same.
pub fn same_request(left: &EvalRequest, right: &EvalRequest) -> (same: bool)
    ensures
        same == (left@ == right@),
{
    match (left, right) {
        (
            EvalRequest::Compare { left: a, right: b },
            EvalRequest::Compare { left: c, right: d },
        ) => *a == *c && *b == *d,
        (
            EvalRequest::Equals { left: a, right: b },
            EvalRequest::Equals { left: c, right: d },
        ) => *a == *c && *b == *d,
        (
            EvalRequest::Arithmetic { op: o, left: a, right: b },
            EvalRequest::Arithmetic { op: p, left: c, right: d },
        ) => *o == *p && *a == *c && *b == *d,
        (
            EvalRequest::Like { text: a, pattern: b },
            EvalRequest::Like { text: c, pattern: d },
        ) => *a == *c && *b == *d,
        (
            EvalRequest::Regex { text: a, pattern: b },
            EvalRequest::Regex { text: c, pattern: d },
        ) => *a == *c && *b == *d,
        (
            EvalRequest::JsonQuery { document: a, path: b },
            EvalRequest::JsonQuery { document: c, path: d },
        ) => same_bytes(a.as_slice(), c.as_slice()) && *b == *d,
        (
            EvalRequest::JsonNodeText { document: a, path: b },
            EvalRequest::JsonNodeText { document: c, path: d },
        ) => same_bytes(a.as_slice(), c.as_slice()) && *b == *d,
        (
            EvalRequest::NumberMatches { text: a, value: b },
            EvalRequest::NumberMatches { text: c, value: d },
        ) => *a == *c && *b == *d,
        (
            EvalRequest::SimplePath { path: a },
            EvalRequest::SimplePath { path: c },
        ) => *a == *c,
        (
            EvalRequest::SimpleExtract { document: a, path: b },
            EvalRequest::SimpleExtract { document: c, path: d },
        ) => same_bytes(a.as_slice(), c.as_slice()) && *b == *d,
        (
            EvalRequest::DecodeString { literal: a },
            EvalRequest::DecodeString { literal: c },
        ) => same_bytes(a.as_slice(), c.as_slice()),
        _ => false,
    }
}

/// The results that the evaluator was given so far.
pub struct EvalFacts {
    entries: Vec<(EvalRequest, EvalAnswer)>,
}

impl View for EvalFacts {
    type V = FactsView;

    closed spec fn view(&self) -> FactsView {
        self.entries@.map_values(|entry: (EvalRequest, EvalAnswer)| (entry.0@, entry.1@))
    }
}

impl EvalFacts {
    /// No results.
    pub fn new() -> (result: Self)
        ensures
            result@ == Seq::<(RequestView, AnswerView)>::empty(),
    {
        let result = EvalFacts { entries: Vec::new() };
        assert(result@ =~= Seq::<(RequestView, AnswerView)>::empty());
        result
    }

    /// Adds a result.
    pub fn push(&mut self, request: EvalRequest, answer: EvalAnswer)
        ensures
            final(self)@ == old(self)@.push((request@, answer@)),
    {
        self.entries.push((request, answer));
        assert(self@ =~= old(self)@.push((request@, answer@)));
    }

    /// The first result for a request.
    pub fn find(&self, request: &EvalRequest) -> (found: Option<&EvalAnswer>)
        ensures
            match known(self@, request@) {
                Some(answer) => found is Some && found->0@ == answer,
                None => found is None,
            },
    {
        let ghost facts = self@;
        let mut i: usize = 0;
        while i < self.entries.len()
            invariant
                i <= self.entries.len(),
                facts == self@,
                known(facts.take(i as int), request@) is None,
            decreases self.entries.len() - i,
        {
            assert(facts.take(i + 1).drop_last() =~= facts.take(i as int));
            assert(facts.take(i + 1).last() == facts[i as int]);
            if same_request(&self.entries[i].0, request) {
                proof {
                    lemma_known_prefix(facts, request@, i + 1);
                }
                return Some(&self.entries[i].1);
            }
            i += 1;
        }
        assert(facts.take(facts.len() as int) =~= facts);
        None
    }
}

/// An answer among the first facts stays the answer when more facts follow.
pub proof fn lemma_known_prefix(facts: FactsView, request: RequestView, k: int)
    requires
        0 <= k <= facts.len(),
        known(facts.take(k), request) is Some,
    ensures
        known(facts, request) == known(facts.take(k), request),
    decreases facts.len(),
{
    if k == facts.len() {
        assert(facts.take(k) =~= facts);
    } else {
        assert(facts.drop_last().take(k) =~= facts.take(k));
        lemma_known_prefix(facts.drop_last(), request, k);
    }
}

/// A request is answered by the first fact about it, and by nothing if there is none.
pub proof fn law_first_fact_answers(facts: FactsView, request: RequestView, at: int)
    ensures
        0 <= at < facts.len() && facts[at].0 == request && (forall|earlier: int|
            0 <= earlier < at ==> (#[trigger] facts[earlier]).0 != request) ==> known(
            facts,
            request,
        ) == Some(facts[at].1),
        (forall|i: int| 0 <= i < facts.len() ==> (#[trigger] facts[i]).0 != request) <==> known(
            facts,
            request,
        ) is None,
    decreases facts.len(),
{
    if facts.len() > 0 {
        let front = facts.drop_last();
        let last = facts.len() - 1;
        law_first_fact_answers(front, request, at);
        assert(forall|i: int| 0 <= i < last ==> front[i] == facts[i]);
        assert(facts[last] == facts.last());
        if known(front, request) is Some {
            assert(exists|i: int| 0 <= i < last && (#[trigger] facts[i]).0 == request) by {
                let i = choose|i: int| 0 <= i < front.len() && (#[trigger] front[i]).0 == request;
                assert(facts[i].0 == request);
            }
            if at == last && facts[at].0 == request {
                let i = choose|i: int| 0 <= i < last && (#[trigger] facts[i]).0 == request;
                assert(facts[i].0 == request);
            }
        }
    }
}

} // verus!
