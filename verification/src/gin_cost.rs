//! Which costs of document indexes a query plan asks for.
use vstd::prelude::*;

use crate::eval::{to_uppercase, uppercase_text};
use crate::expr::{exprs_view, lemma_list_views, BinaryOp, Expr, ExprView};
use crate::js_convert::{all_digits, digits_value, integer_of, optional_text};
use crate::text::{chars_of, same_text, string_of};
use crate::value::{Value, ValueView};

verus! {

/// The digit characters.
pub open spec fn digit_char(digit: nat) -> char {
    (('0' as u32) + digit) as char
}

/// The decimal text of a number.
pub open spec fn decimal_text(number: nat) -> Seq<char>
    decreases number,
{
    if number < 10 {
        seq![digit_char(number)]
    } else {
        decimal_text(number / 10).push(digit_char(number % 10))
    }
}

/// The decimal text of a number with its sign.
pub open spec fn signed_text(number: int) -> Seq<char> {
    if number < 0 {
        seq!['-'] + decimal_text((-number) as nat)
    } else {
        decimal_text(number as nat)
    }
}

fn digit_of(digit: u64) -> (result: char)
    requires
        digit < 10,
    ensures
        result == digit_char(digit as nat),
{
    match digit {
        0 => '0',
        1 => '1',
        2 => '2',
        3 => '3',
        4 => '4',
        5 => '5',
        6 => '6',
        7 => '7',
        8 => '8',
        _ => '9',
    }
}

fn decimal_chars(number: u64) -> (chars: Vec<char>)
    ensures
        chars@ == decimal_text(number as nat),
    decreases number,
{
    if number < 10 {
        let mut chars: Vec<char> = Vec::new();
        chars.push(digit_of(number));
        assert(chars@ =~= seq![digit_char(number as nat)]);
        chars
    } else {
        let mut chars = decimal_chars(number / 10);
        chars.push(digit_of(number % 10));
        chars
    }
}

/// Writes a number in decimal digits.
pub fn number_text(number: i64) -> (text: String)
    ensures
        text@ == signed_text(number as int),
{
    if number >= 0 {
        return string_of(decimal_chars(number as u64).as_slice());
    }
    let size: u64 = if number == i64::MIN {
        9_223_372_036_854_775_808
    } else {
        (-number) as u64
    };
    assert(size == -number);
    let mut chars: Vec<char> = Vec::new();
    chars.push('-');
    let mut digits = decimal_chars(size);
    chars.append(&mut digits);
    assert(chars@ =~= seq!['-'] + decimal_text((-number) as nat));
    string_of(chars.as_slice())
}

/// A parsed path into a document, as far as an index key can come from it.
#[derive(Debug)]
pub enum JsonPath {
    Root,
    Field { parent: Box<JsonPath>, field: String },
    Index { parent: Box<JsonPath>, index: usize },
    Other,
}

/// The segments of a path: names of fields and positions in arrays. Other steps have none.
pub open spec fn path_segments(path: JsonPath) -> Option<Seq<Seq<char>>>
    decreases path,
{
    match path {
        JsonPath::Root => Some(Seq::empty()),
        JsonPath::Field { parent, field } => match path_segments(*parent) {
            Some(segments) => Some(segments.push(field@)),
            None => None,
        },
        JsonPath::Index { parent, index } => match path_segments(*parent) {
            Some(segments) => Some(segments.push(decimal_text(index as nat))),
            None => None,
        },
        JsonPath::Other => None,
    }
}

/// Segments with dots between them. No dot follows an empty text.
pub open spec fn dotted(segments: Seq<Seq<char>>) -> Seq<char>
    decreases segments.len(),
{
    if segments.len() == 0 {
        Seq::empty()
    } else {
        let front = dotted(segments.drop_last());
        if front.len() == 0 {
            segments.last()
        } else {
            front.push('.') + segments.last()
        }
    }
}

/// The key that a path has in an index: none for the root, and none for a path that is more than
/// fields and positions.
pub open spec fn index_key(path: Option<JsonPath>) -> Option<Seq<char>> {
    match path {
        None => None,
        Some(path) => match path_segments(path) {
            None => None,
            Some(segments) => if segments.len() == 0 {
                None
            } else {
                Some(dotted(segments))
            },
        },
    }
}

/// Collects the segments of a path with dots between them: the text, and whether there are any.
fn collect_gin_path_segments(path: &JsonPath) -> (result: Option<(Vec<char>, bool)>)
    ensures
        match path_segments(*path) {
            None => result is None,
            Some(segments) => result matches Some((text, found)) && text@ == dotted(segments)
                && found == (segments.len() > 0),
        },
    decreases path,
{
    match path {
        JsonPath::Root => Some((Vec::new(), false)),
        JsonPath::Field { parent, field } => {
            match collect_gin_path_segments(parent) {
                None => None,
                Some((text, _)) => {
                    let ghost segments = path_segments(**parent)->0;
                    assert(segments.push(field@).drop_last() =~= segments);
                    let mut text = text;
                    if text.len() > 0 {
                        text.push('.');
                    }
                    let mut rest = chars_of(field.as_str());
                    text.append(&mut rest);
                    assert(text@ =~= dotted(segments.push(field@)));
                    Some((text, true))
                },
            }
        },
        JsonPath::Index { parent, index } => {
            match collect_gin_path_segments(parent) {
                None => None,
                Some((text, _)) => {
                    let ghost segments = path_segments(**parent)->0;
                    let ghost position = decimal_text(*index as nat);
                    assert(segments.push(position).drop_last() =~= segments);
                    let mut text = text;
                    if text.len() > 0 {
                        text.push('.');
                    }
                    let mut rest = decimal_chars(*index as u64);
                    text.append(&mut rest);
                    assert(text@ =~= dotted(segments.push(position)));
                    Some((text, true))
                },
            }
        },
        JsonPath::Other => None,
    }
}

/// The key that a path has in an index. `path` is the parsed path, none if it is no path.
pub fn normalize_gin_path(path: Option<&JsonPath>) -> (key: Option<String>)
    ensures
        optional_text(key) == index_key(
            match path {
                Some(path) => Some(*path),
                None => None,
            },
        ),
{
    match path {
        None => None,
        Some(path) => match collect_gin_path_segments(path) {
            None => None,
            Some((text, found)) => if found {
                Some(string_of(text.as_slice()))
            } else {
                None
            },
        },
    }
}

/// What a condition compares the selected part of a document with.
#[derive(Debug)]
pub enum GinOperand {
    Nothing,
    Literal(Value),
    Needle(String),
}

/// What a condition compares the selected part of a document with.
pub enum OperandView {
    Nothing,
    Literal(ValueView),
    Needle(Seq<char>),
}

impl View for GinOperand {
    type V = OperandView;

    open spec fn view(&self) -> OperandView {
        match self {
            GinOperand::Nothing => OperandView::Nothing,
            GinOperand::Literal(value) => OperandView::Literal(value@),
            GinOperand::Needle(text) => OperandView::Needle(text@),
        }
    }
}

/// A condition on a part of a document that an index may know the cost of.
#[derive(Debug)]
pub struct GinCandidate {
    pub table: String,
    pub column: String,
    pub path: String,
    pub operand: GinOperand,
}

/// A condition on a part of a document that an index may know the cost of.
#[verifier::ext_equal]
pub struct CandidateView {
    pub table: Seq<char>,
    pub column: Seq<char>,
    pub path: Seq<char>,
    pub operand: OperandView,
}

impl View for GinCandidate {
    type V = CandidateView;

    open spec fn view(&self) -> CandidateView {
        CandidateView {
            table: self.table@,
            column: self.column@,
            path: self.path@,
            operand: self.operand@,
        }
    }
}

/// What a list of conditions is.
pub open spec fn candidates_view(candidates: Seq<GinCandidate>) -> Seq<CandidateView> {
    candidates.map_values(|candidate: GinCandidate| candidate@)
}

/// A value that has a text in an index.
pub open spec fn has_text(value: ValueView) -> bool {
    value is String || value is Int32 || value is Int64 || value is Boolean || value is Float64
}

/// The operand of a call: a literal to be equal to, nothing, or a text to look for.
pub open spec fn operand_of(name: Seq<char>, args: Seq<ExprView>) -> Option<OperandView> {
    let function = uppercase_text(name);
    if function == "JSONB_PATH_EQ"@ {
        match args[2] {
            ExprView::Literal(value) => if has_text(value) {
                Some(OperandView::Literal(value))
            } else {
                None
            },
            _ => None,
        }
    } else if function == "JSONB_EXISTS"@ {
        Some(OperandView::Nothing)
    } else if function == "JSONB_CONTAINS"@ {
        match args[2] {
            ExprView::Literal(ValueView::String(text)) => Some(OperandView::Needle(text)),
            _ => None,
        }
    } else {
        None
    }
}

/// The number of arguments that a function on documents takes at least.
pub open spec fn least_args(name: Seq<char>) -> int {
    if uppercase_text(name) == "JSONB_EXISTS"@ {
        2
    } else {
        3
    }
}

/// The condition that a call is: a function of a column, a path and an operand.
pub open spec fn candidate_of(name: Seq<char>, args: Seq<ExprView>) -> Option<CandidateView> {
    if args.len() < least_args(name) {
        None
    } else {
        match (args[0], args[1], operand_of(name, args)) {
            (
                ExprView::Column(column),
                ExprView::Literal(ValueView::String(path)),
                Some(operand),
            ) => Some(
                CandidateView { table: column.table, column: column.column, path, operand },
            ),
            _ => None,
        }
    }
}

fn extract_operand(function: &str, args: &[Expr]) -> (operand: Option<GinOperand>)
    requires
        args@.len() >= (if function@ == "JSONB_EXISTS"@ {
            2int
        } else {
            3
        }),
    ensures
        forall|name: Seq<char>|
            uppercase_text(name) == function@ ==> (match #[trigger] operand_of(
                name,
                exprs_view(args@),
            ) {
                Some(expected) => operand matches Some(operand) && operand@ == expected,
                None => operand is None,
            }),
{
    proof {
        reveal_strlit("JSONB_PATH_EQ");
        reveal_strlit("JSONB_EXISTS");
        reveal_strlit("JSONB_CONTAINS");
        assert("JSONB_PATH_EQ"@.len() == 13);
        assert("JSONB_EXISTS"@.len() == 12);
        assert("JSONB_CONTAINS"@.len() == 14);
    }
    if same_text(function, "JSONB_PATH_EQ") {
        assert(exprs_view(args@)[2] == args@[2]@);
        match &args[2] {
            Expr::Literal(value) => {
                let known = match value {
                    Value::String(_) => true,
                    Value::Int32(_) => true,
                    Value::Int64(_) => true,
                    Value::Boolean(_) => true,
                    Value::Float64(_) => true,
                    _ => false,
                };
                if known {
                    Some(GinOperand::Literal(value.clone()))
                } else {
                    None
                }
            },
            _ => None,
        }
    } else if same_text(function, "JSONB_EXISTS") {
        Some(GinOperand::Nothing)
    } else if same_text(function, "JSONB_CONTAINS") {
        assert(exprs_view(args@)[2] == args@[2]@);
        match &args[2] {
            Expr::Literal(Value::String(text)) => Some(GinOperand::Needle(text.clone())),
            _ => None,
        }
    } else {
        None
    }
}

/// Reads the condition that a call is.
pub fn extract_gin_cost_request(name: &str, args: &[Expr]) -> (result: Option<GinCandidate>)
    ensures
        match candidate_of(name@, exprs_view(args@)) {
            Some(candidate) => result matches Some(found) && found@ == candidate,
            None => result is None,
        },
{
    let function = to_uppercase(name);
    let least: usize = if same_text(function.as_str(), "JSONB_EXISTS") {
        2
    } else {
        3
    };
    if args.len() < least {
        return None;
    }
    assert(exprs_view(args@)[0] == args@[0]@);
    assert(exprs_view(args@)[1] == args@[1]@);
    match extract_operand(function.as_str(), args) {
        None => None,
        Some(operand) => match (&args[0], &args[1]) {
            (Expr::Column(column), Expr::Literal(Value::String(path))) => Some(
                GinCandidate {
                    table: column.table.clone(),
                    column: column.column.clone(),
                    path: path.clone(),
                    operand,
                },
            ),
            _ => None,
        },
    }
}

/// The conditions of a predicate, in order: those below conjunctions and disjunctions.
pub open spec fn predicate_candidates(predicate: ExprView) -> Seq<CandidateView>
    decreases predicate,
{
    match predicate {
        ExprView::BinaryOp { left, op, right } => if op == BinaryOp::And || op == BinaryOp::Or {
            predicate_candidates(*left) + predicate_candidates(*right)
        } else {
            Seq::empty()
        },
        ExprView::Function { name, args } => match candidate_of(name, args) {
            Some(candidate) => seq![candidate],
            None => Seq::empty(),
        },
        _ => Seq::empty(),
    }
}

/// Adds the conditions of a predicate to a list.
pub fn register_predicate_gin_costs(predicate: &Expr, candidates: &mut Vec<GinCandidate>)
    ensures
        candidates_view(final(candidates)@) == candidates_view(old(candidates)@)
            + predicate_candidates(predicate@),
    decreases predicate,
{
    broadcast use lemma_list_views;

    let ghost start = candidates_view(candidates@);
    match predicate {
        Expr::BinaryOp { left, op, right } => {
            if *op == BinaryOp::And || *op == BinaryOp::Or {
                register_predicate_gin_costs(left, candidates);
                register_predicate_gin_costs(right, candidates);
                assert(candidates_view(candidates@) =~= start + predicate_candidates(predicate@));
            } else {
                assert(start + Seq::<CandidateView>::empty() =~= start);
            }
        },
        Expr::Function { name, args } => {
            assert(predicate@ == ExprView::Function { name: name@, args: exprs_view(args@) });
            match extract_gin_cost_request(name.as_str(), args.as_slice()) {
                Some(candidate) => {
                    let ghost added = candidate@;
                    candidates.push(candidate);
                    assert(candidates_view(candidates@) =~= start + seq![added]);
                },
                None => {
                    assert(start + Seq::<CandidateView>::empty() =~= start);
                },
            }
        },
        _ => {
            assert(start + Seq::<CandidateView>::empty() =~= start);
        },
    }
}

/// A logical plan, as far as its conditions are read.
#[derive(Debug)]
#[allow(inconsistent_fields)]
pub enum LogicalPlan {
    Filter { input: Box<LogicalPlan>, predicate: Expr },
    Project { input: Box<LogicalPlan> },
    Aggregate { input: Box<LogicalPlan> },
    Sort { input: Box<LogicalPlan> },
    Limit { input: Box<LogicalPlan> },
    Join { left: Box<LogicalPlan>, right: Box<LogicalPlan>, condition: Expr },
    CrossProduct { left: Box<LogicalPlan>, right: Box<LogicalPlan> },
    Union { left: Box<LogicalPlan>, right: Box<LogicalPlan> },
    Source,
}

/// The conditions of a plan, those of the inputs of an operator first.
pub open spec fn plan_candidates(plan: LogicalPlan) -> Seq<CandidateView>
    decreases plan,
{
    match plan {
        LogicalPlan::Filter { input, predicate } => plan_candidates(*input)
            + predicate_candidates(predicate@),
        LogicalPlan::Project { input } => plan_candidates(*input),
        LogicalPlan::Aggregate { input } => plan_candidates(*input),
        LogicalPlan::Sort { input } => plan_candidates(*input),
        LogicalPlan::Limit { input } => plan_candidates(*input),
        LogicalPlan::Join { left, right, condition } => plan_candidates(*left) + plan_candidates(
            *right,
        ) + predicate_candidates(condition@),
        LogicalPlan::CrossProduct { left, right } => plan_candidates(*left) + plan_candidates(
            *right,
        ),
        LogicalPlan::Union { left, right } => plan_candidates(*left) + plan_candidates(*right),
        LogicalPlan::Source => Seq::empty(),
    }
}

/// Adds the conditions of a plan to a list.
pub fn register_plan_gin_costs(plan: &LogicalPlan, candidates: &mut Vec<GinCandidate>)
    ensures
        candidates_view(final(candidates)@) == candidates_view(old(candidates)@)
            + plan_candidates(*plan),
    decreases plan,
{
    let ghost start = candidates_view(candidates@);
    match plan {
        LogicalPlan::Filter { input, predicate } => {
            register_plan_gin_costs(input, candidates);
            register_predicate_gin_costs(predicate, candidates);
        },
        LogicalPlan::Project { input } => register_plan_gin_costs(input, candidates),
        LogicalPlan::Aggregate { input } => register_plan_gin_costs(input, candidates),
        LogicalPlan::Sort { input } => register_plan_gin_costs(input, candidates),
        LogicalPlan::Limit { input } => register_plan_gin_costs(input, candidates),
        LogicalPlan::Join { left, right, condition } => {
            register_plan_gin_costs(left, candidates);
            register_plan_gin_costs(right, candidates);
            register_predicate_gin_costs(condition, candidates);
        },
        LogicalPlan::CrossProduct { left, right } => {
            register_plan_gin_costs(left, candidates);
            register_plan_gin_costs(right, candidates);
        },
        LogicalPlan::Union { left, right } => {
            register_plan_gin_costs(left, candidates);
            register_plan_gin_costs(right, candidates);
        },
        LogicalPlan::Source => {},
    }
    assert(candidates_view(candidates@) =~= start + plan_candidates(*plan));
}

/// The text of a literal in an index. `float_text` is the text of a floating point number.
pub open spec fn literal_text(value: ValueView, float_text: Seq<char>) -> Option<Seq<char>> {
    match value {
        ValueView::String(text) => Some(text),
        ValueView::Int32(number) => Some(signed_text(number as int)),
        ValueView::Int64(number) => Some(signed_text(number as int)),
        ValueView::Boolean(truth) => Some(
            if truth {
                "true"@
            } else {
                "false"@
            },
        ),
        ValueView::Float64(_) => Some(float_text),
        _ => None,
    }
}

/// Writes a literal as an index holds it. `float_text` is the text of a floating point number.
pub fn extract_literal_string(value: &Value, float_text: &str) -> (text: Option<String>)
    ensures
        optional_text(text) == literal_text(value@, float_text@),
{
    match value {
        Value::String(text) => Some(text.clone()),
        Value::Int32(number) => Some(number_text(*number as i64)),
        Value::Int64(number) => Some(number_text(*number)),
        Value::Boolean(truth) => Some(
            if *truth {
                "true".to_owned()
            } else {
                "false".to_owned()
            },
        ),
        Value::Float64(_) => Some(float_text.to_owned()),
        _ => None,
    }
}

/// A cost that a planner is told: that of a key of an index, or of a value of the key.
#[derive(Debug)]
pub struct GinCostKey {
    pub key: String,
    pub value: Option<String>,
}

/// A cost that a planner is told: that of a key of an index, or of a value of the key.
#[verifier::ext_equal]
pub struct CostKeyView {
    pub key: Seq<char>,
    pub value: Option<Seq<char>>,
}

impl View for GinCostKey {
    type V = CostKeyView;

    open spec fn view(&self) -> CostKeyView {
        CostKeyView { key: self.key@, value: optional_text(self.value) }
    }
}

/// What a list of costs is.
pub open spec fn cost_keys_view(keys: Seq<GinCostKey>) -> Seq<CostKeyView> {
    keys.map_values(|key: GinCostKey| key@)
}

/// The costs for pairs of keys and values.
pub open spec fn pair_costs(pairs: Seq<(String, String)>) -> Seq<CostKeyView> {
    pairs.map_values(
        |pair: (String, String)| CostKeyView { key: pair.0@, value: Some(pair.1@) },
    )
}

/// The costs that a planner is told for a condition: that of the key of the path, that of the
/// literal, and those of the pairs that every text that holds the needle has.
pub open spec fn costs_of(
    operand: OperandView,
    key: Seq<char>,
    float_text: Seq<char>,
    pairs: Seq<(String, String)>,
) -> Seq<CostKeyView> {
    let own = CostKeyView { key, value: None };
    match operand {
        OperandView::Nothing => seq![own],
        OperandView::Literal(value) => match literal_text(value, float_text) {
            Some(text) => seq![own, CostKeyView { key, value: Some(text) }],
            None => seq![own],
        },
        OperandView::Needle(_) => seq![own] + pair_costs(pairs),
    }
}

/// The costs that a planner is told for a condition. `key` is the key of its path, and `pairs` are
/// the pairs of the key and the needle; they are only read if there is a needle.
pub fn gin_cost_keys(
    operand: &GinOperand,
    key: &String,
    float_text: &str,
    pairs: &[(String, String)],
) -> (keys: Vec<GinCostKey>)
    ensures
        cost_keys_view(keys@) == costs_of(operand@, key@, float_text@, pairs@),
{
    let mut keys: Vec<GinCostKey> = Vec::new();
    keys.push(GinCostKey { key: key.clone(), value: None });
    let ghost own = CostKeyView { key: key@, value: None };
    assert(cost_keys_view(keys@) =~= seq![own]);
    match operand {
        GinOperand::Nothing => {},
        GinOperand::Literal(value) => match extract_literal_string(value, float_text) {
            Some(text) => {
                let ghost second = CostKeyView { key: key@, value: Some(text@) };
                keys.push(GinCostKey { key: key.clone(), value: Some(text) });
                assert(cost_keys_view(keys@) =~= seq![own, second]);
            },
            None => {},
        },
        GinOperand::Needle(_) => {
            let mut i: usize = 0;
            assert(seq![own] + pair_costs(pairs@).take(0) =~= seq![own]);
            while i < pairs.len()
                invariant
                    i <= pairs.len(),
                    cost_keys_view(keys@) == seq![own] + pair_costs(pairs@).take(i as int),
                decreases pairs.len() - i,
            {
                let ghost before = cost_keys_view(keys@);
                let next = GinCostKey { key: pairs[i].0.clone(), value: Some(pairs[i].1.clone()) };
                let ghost added = next@;
                keys.push(next);
                assert(cost_keys_view(keys@) =~= before.push(added));
                assert(pair_costs(pairs@).take(i + 1) =~= pair_costs(pairs@).take(i as int).push(
                    pair_costs(pairs@)[i as int],
                ));
                assert(cost_keys_view(keys@) =~= seq![own] + pair_costs(pairs@).take(i + 1));
                i += 1;
            }
            assert(pair_costs(pairs@).take(pairs@.len() as int) =~= pair_costs(pairs@));
        },
    }
    keys
}

proof fn lemma_digit_char(digit: nat)
    requires
        digit < 10,
    ensures
        '0' <= digit_char(digit) <= '9',
        digit_char(digit) as int - '0' as int == digit,
{
}

proof fn lemma_decimal_text(number: nat)
    ensures
        decimal_text(number).len() > 0,
        all_digits(decimal_text(number)),
        digits_value(decimal_text(number)) == number,
    decreases number,
{
    let text = decimal_text(number);
    if number < 10 {
        lemma_digit_char(number);
        assert(text.drop_last() =~= Seq::empty());
        assert(digits_value(text.drop_last()) == 0);
    } else {
        lemma_decimal_text(number / 10);
        lemma_digit_char(number % 10);
        let front = decimal_text(number / 10);
        assert(text.drop_last() =~= front);
        assert forall|i: int| 0 <= i < text.len() implies '0' <= #[trigger] text[i] <= '9' by {
            if i < front.len() {
                assert(text[i] == front[i]);
            }
        }
    }
}

/// The text of a number is read back as the number.
pub proof fn law_number_texts_are_read_back(number: i64)
    ensures
        integer_of(signed_text(number as int)) == Some(number),
{
    let text = signed_text(number as int);
    if number < 0 {
        let digits = decimal_text((-(number as int)) as nat);
        lemma_decimal_text((-(number as int)) as nat);
        assert(text.skip(1) =~= digits);
        assert(text[0] == '-');
    } else {
        lemma_decimal_text(number as nat);
        assert('0' <= text[0] <= '9');
    }
}

/// The literals of an index are texts that tell the value: a text is itself, the text of a number is
/// read back as the number, and the truths have different texts.
pub proof fn law_literal_texts_tell_the_value(value: ValueView, float_text: Seq<char>)
    ensures
        literal_text(value, float_text) is Some <==> value is String || value is Int32
            || value is Int64 || value is Boolean || value is Float64,
        value is String ==> literal_text(value, float_text) == Some(value->String_0),
        value is Int32 ==> integer_of(literal_text(value, float_text)->0) == Some(
            value->Int32_0 as i64,
        ),
        value is Int64 ==> integer_of(literal_text(value, float_text)->0) == Some(value->Int64_0),
        value == ValueView::Boolean(true) ==> literal_text(value, float_text) == Some("true"@),
        value == ValueView::Boolean(false) ==> literal_text(value, float_text) == Some("false"@),
        value is Float64 ==> literal_text(value, float_text) == Some(float_text),
{
    if let ValueView::Int32(number) = value {
        law_number_texts_are_read_back(number as i64);
    }
    if let ValueView::Int64(number) = value {
        law_number_texts_are_read_back(number);
    }
}

/// The key of a field below the root is its name. Below a path that has a key, the key of a field
/// or of a position is that key, a dot, and the name or the number. The root has no key, nor has
/// what stands below another step.
pub proof fn law_keys_extend_the_keys_of_parents(
    parent: Box<JsonPath>,
    field: String,
    index: usize,
)
    ensures
        index_key(Some(JsonPath::Root)) is None,
        index_key(Some(JsonPath::Other)) is None,
        index_key(None) is None,
        *parent is Root ==> index_key(Some(JsonPath::Field { parent, field })) == Some(field@),
        *parent is Root ==> (index_key(Some(JsonPath::Index { parent, index })) matches Some(key)
            && all_digits(key) && digits_value(key) == index),
        *parent is Other ==> index_key(Some(JsonPath::Field { parent, field })) is None,
        *parent is Other ==> index_key(Some(JsonPath::Index { parent, index })) is None,
        index_key(Some(*parent)) matches Some(front) ==> (front.len() > 0 ==> {
            &&& index_key(Some(JsonPath::Field { parent, field })) == Some(
                front + seq!['.'] + field@,
            )
            &&& index_key(Some(JsonPath::Index { parent, index })) == Some(
                front + seq!['.'] + decimal_text(index as nat),
            )
        }),
        path_segments(*parent) is None ==> index_key(Some(JsonPath::Field { parent, field })) is None
            && index_key(Some(JsonPath::Index { parent, index })) is None,
{
    lemma_decimal_text(index as nat);
    if let Some(segments) = path_segments(*parent) {
        assert(segments.push(field@).drop_last() =~= segments);
        assert(segments.push(decimal_text(index as nat)).drop_last() =~= segments);
        if *parent is Root {
            assert(dotted(segments) =~= Seq::empty());
        }
        let front = dotted(segments);
        assert(front.push('.') + field@ =~= front + seq!['.'] + field@);
        assert(front.push('.') + decimal_text(index as nat) =~= front + seq!['.'] + decimal_text(
            index as nat,
        ));
    }
}

/// A call of a function on documents is a condition on the column and the path that it names: one of
/// equality with a literal that has a text, one that the path exists, or one that a text is part of
/// it. No other call is a condition.
pub proof fn law_calls_are_conditions(name: Seq<char>, args: Seq<ExprView>)
    ensures
        candidate_of(name, args) matches Some(candidate) ==> {
            &&& args.len() >= 2
            &&& args[0] is Column
            &&& args[0]->Column_0.table == candidate.table
            &&& args[0]->Column_0.column == candidate.column
            &&& args[1] == ExprView::Literal(ValueView::String(candidate.path))
            &&& candidate.operand is Nothing <==> uppercase_text(name) == "JSONB_EXISTS"@
            &&& candidate.operand matches OperandView::Literal(value) ==> uppercase_text(name)
                == "JSONB_PATH_EQ"@ && args.len() >= 3 && args[2] == ExprView::Literal(value)
                && has_text(value)
            &&& candidate.operand matches OperandView::Needle(text) ==> uppercase_text(name)
                == "JSONB_CONTAINS"@ && args.len() >= 3 && args[2] == ExprView::Literal(
                ValueView::String(text),
            )
        },
        args.len() >= 2 && args[0] is Column && args[1] is Literal && args[1]->Literal_0 is String
            ==> {
            &&& uppercase_text(name) == "JSONB_EXISTS"@ ==> candidate_of(name, args) is Some
            &&& uppercase_text(name) == "JSONB_PATH_EQ"@ && args.len() >= 3 ==> (candidate_of(
                name,
                args,
            ) is Some <==> args[2] is Literal && has_text(args[2]->Literal_0))
            &&& uppercase_text(name) == "JSONB_CONTAINS"@ && args.len() >= 3 ==> (candidate_of(
                name,
                args,
            ) is Some <==> args[2] is Literal && args[2]->Literal_0 is String)
        },
{
    reveal_strlit("JSONB_EXISTS");
    reveal_strlit("JSONB_PATH_EQ");
    reveal_strlit("JSONB_CONTAINS");
    assert("JSONB_EXISTS"@.len() == 12);
    assert("JSONB_PATH_EQ"@.len() == 13);
    assert("JSONB_CONTAINS"@.len() == 14);
}

/// A call stands below the conjunctions and disjunctions of a predicate.
pub open spec fn calls(predicate: ExprView, name: Seq<char>, args: Seq<ExprView>) -> bool
    decreases predicate,
{
    match predicate {
        ExprView::BinaryOp { left, op: BinaryOp::And, right } => calls(*left, name, args) || calls(
            *right,
            name,
            args,
        ),
        ExprView::BinaryOp { left, op: BinaryOp::Or, right } => calls(*left, name, args) || calls(
            *right,
            name,
            args,
        ),
        ExprView::Function { name: called, args: given } => called == name && given == args,
        _ => false,
    }
}

/// A call stands in a predicate or a join condition of a plan.
pub open spec fn plan_calls(plan: LogicalPlan, name: Seq<char>, args: Seq<ExprView>) -> bool
    decreases plan,
{
    match plan {
        LogicalPlan::Filter { input, predicate } => plan_calls(*input, name, args) || calls(
            predicate@,
            name,
            args,
        ),
        LogicalPlan::Project { input } => plan_calls(*input, name, args),
        LogicalPlan::Aggregate { input } => plan_calls(*input, name, args),
        LogicalPlan::Sort { input } => plan_calls(*input, name, args),
        LogicalPlan::Limit { input } => plan_calls(*input, name, args),
        LogicalPlan::Join { left, right, condition } => plan_calls(*left, name, args) || plan_calls(
            *right,
            name,
            args,
        ) || calls(condition@, name, args),
        LogicalPlan::CrossProduct { left, right } => plan_calls(*left, name, args) || plan_calls(
            *right,
            name,
            args,
        ),
        LogicalPlan::Union { left, right } => plan_calls(*left, name, args) || plan_calls(
            *right,
            name,
            args,
        ),
        LogicalPlan::Source => false,
    }
}

proof fn lemma_joined_lists(left: Seq<CandidateView>, right: Seq<CandidateView>)
    ensures
        forall|candidate: CandidateView| #[trigger]
            (left + right).contains(candidate) <==> left.contains(candidate) || right.contains(
                candidate,
            ),
{
    assert forall|candidate: CandidateView| #[trigger] (left + right).contains(candidate)
        <==> left.contains(candidate) || right.contains(candidate) by {
        if left.contains(candidate) {
            assert((left + right)[left.index_of(candidate)] == candidate);
        }
        if right.contains(candidate) {
            assert((left + right)[left.len() + right.index_of(candidate)] == candidate);
        }
        if (left + right).contains(candidate) {
            let i = (left + right).index_of(candidate);
            if i < left.len() {
                assert(left[i] == candidate);
            } else {
                assert(right[i - left.len()] == candidate);
            }
        }
    }
}

proof fn lemma_predicate_conditions(
    predicate: ExprView,
    name: Seq<char>,
    args: Seq<ExprView>,
    candidate: CandidateView,
)
    ensures
        calls(predicate, name, args) && candidate_of(name, args) == Some(candidate)
            ==> predicate_candidates(predicate).contains(candidate),
        predicate_candidates(predicate).contains(candidate) ==> exists|
            called: Seq<char>,
            given: Seq<ExprView>,
        | #[trigger]
            calls(predicate, called, given) && candidate_of(called, given) == Some(candidate),
    decreases predicate,
{
    match predicate {
        ExprView::BinaryOp { left, op, right } => {
            lemma_predicate_conditions(*left, name, args, candidate);
            lemma_predicate_conditions(*right, name, args, candidate);
            lemma_joined_lists(predicate_candidates(*left), predicate_candidates(*right));
            if predicate_candidates(predicate).contains(candidate) {
                assert(op == BinaryOp::And || op == BinaryOp::Or);
                let part = if predicate_candidates(*left).contains(candidate) {
                    *left
                } else {
                    *right
                };
                let (called, given) = choose|called: Seq<char>, given: Seq<ExprView>| #[trigger]
                    calls(part, called, given) && candidate_of(called, given) == Some(candidate);
                assert(calls(predicate, called, given));
            }
        },
        ExprView::Function { name: called, args: given } => {
            if let Some(found) = candidate_of(called, given) {
                assert(predicate_candidates(predicate)[0] == found);
            }
            if predicate_candidates(predicate).contains(candidate) {
                assert(calls(predicate, called, given));
            }
        },
        _ => {},
    }
}

/// The conditions that indexes may know costs of are those of the calls in the predicates and join
/// conditions of a plan, wherever in the plan they stand, and no others.
pub proof fn law_plans_ask_for_their_conditions(
    plan: LogicalPlan,
    name: Seq<char>,
    args: Seq<ExprView>,
    candidate: CandidateView,
)
    ensures
        plan_calls(plan, name, args) && candidate_of(name, args) == Some(candidate)
            ==> plan_candidates(plan).contains(candidate),
        plan_candidates(plan).contains(candidate) ==> exists|
            called: Seq<char>,
            given: Seq<ExprView>,
        | #[trigger]
            plan_calls(plan, called, given) && candidate_of(called, given) == Some(candidate),
    decreases plan, 1int,
{
    match plan {
        LogicalPlan::Filter { input, predicate } => {
            law_plans_ask_for_their_conditions(*input, name, args, candidate);
            lemma_predicate_conditions(predicate@, name, args, candidate);
            lemma_joined_lists(plan_candidates(*input), predicate_candidates(predicate@));
            if plan_candidates(*input).contains(candidate) {
                let (called, given) = choose|called: Seq<char>, given: Seq<ExprView>| #[trigger]
                    plan_calls(*input, called, given) && candidate_of(called, given) == Some(
                        candidate,
                    );
                assert(plan_calls(plan, called, given));
            } else if predicate_candidates(predicate@).contains(candidate) {
                let (called, given) = choose|called: Seq<char>, given: Seq<ExprView>| #[trigger]
                    calls(predicate@, called, given) && candidate_of(called, given) == Some(
                        candidate,
                    );
                assert(plan_calls(plan, called, given));
            }
        },
        LogicalPlan::Project { input } => {
            lemma_input_conditions(plan, *input, name, args, candidate);
        },
        LogicalPlan::Aggregate { input } => {
            lemma_input_conditions(plan, *input, name, args, candidate);
        },
        LogicalPlan::Sort { input } => {
            lemma_input_conditions(plan, *input, name, args, candidate);
        },
        LogicalPlan::Limit { input } => {
            lemma_input_conditions(plan, *input, name, args, candidate);
        },
        LogicalPlan::Join { left, right, condition } => {
            law_plans_ask_for_their_conditions(*left, name, args, candidate);
            law_plans_ask_for_their_conditions(*right, name, args, candidate);
            lemma_predicate_conditions(condition@, name, args, candidate);
            lemma_joined_lists(plan_candidates(*left), plan_candidates(*right));
            lemma_joined_lists(
                plan_candidates(*left) + plan_candidates(*right),
                predicate_candidates(condition@),
            );
            if plan_candidates(*left).contains(candidate) {
                let (called, given) = choose|called: Seq<char>, given: Seq<ExprView>| #[trigger]
                    plan_calls(*left, called, given) && candidate_of(called, given) == Some(
                        candidate,
                    );
                assert(plan_calls(plan, called, given));
            } else if plan_candidates(*right).contains(candidate) {
                let (called, given) = choose|called: Seq<char>, given: Seq<ExprView>| #[trigger]
                    plan_calls(*right, called, given) && candidate_of(called, given) == Some(
                        candidate,
                    );
                assert(plan_calls(plan, called, given));
            } else if predicate_candidates(condition@).contains(candidate) {
                let (called, given) = choose|called: Seq<char>, given: Seq<ExprView>| #[trigger]
                    calls(condition@, called, given) && candidate_of(called, given) == Some(
                        candidate,
                    );
                assert(plan_calls(plan, called, given));
            }
        },
        LogicalPlan::CrossProduct { left, right } => {
            lemma_pair_conditions(plan, *left, *right, name, args, candidate);
        },
        LogicalPlan::Union { left, right } => {
            lemma_pair_conditions(plan, *left, *right, name, args, candidate);
        },
        LogicalPlan::Source => {},
    }
}

proof fn lemma_input_conditions(
    plan: LogicalPlan,
    input: LogicalPlan,
    name: Seq<char>,
    args: Seq<ExprView>,
    candidate: CandidateView,
)
    requires
        decreases_to!(plan => input),
        plan_candidates(plan) == plan_candidates(input),
        forall|called: Seq<char>, given: Seq<ExprView>| #[trigger]
            plan_calls(plan, called, given) == plan_calls(input, called, given),
    ensures
        plan_calls(plan, name, args) && candidate_of(name, args) == Some(candidate)
            ==> plan_candidates(plan).contains(candidate),
        plan_candidates(plan).contains(candidate) ==> exists|
            called: Seq<char>,
            given: Seq<ExprView>,
        | #[trigger]
            plan_calls(plan, called, given) && candidate_of(called, given) == Some(candidate),
    decreases plan, 0int,
{
    law_plans_ask_for_their_conditions(input, name, args, candidate);
    if plan_candidates(input).contains(candidate) {
        let (called, given) = choose|called: Seq<char>, given: Seq<ExprView>| #[trigger]
            plan_calls(input, called, given) && candidate_of(called, given) == Some(candidate);
        assert(plan_calls(plan, called, given));
    }
}

proof fn lemma_pair_conditions(
    plan: LogicalPlan,
    left: LogicalPlan,
    right: LogicalPlan,
    name: Seq<char>,
    args: Seq<ExprView>,
    candidate: CandidateView,
)
    requires
        decreases_to!(plan => left),
        decreases_to!(plan => right),
        plan_candidates(plan) == plan_candidates(left) + plan_candidates(right),
        forall|called: Seq<char>, given: Seq<ExprView>| #[trigger]
            plan_calls(plan, called, given) == (plan_calls(left, called, given) || plan_calls(
                right,
                called,
                given,
            )),
    ensures
        plan_calls(plan, name, args) && candidate_of(name, args) == Some(candidate)
            ==> plan_candidates(plan).contains(candidate),
        plan_candidates(plan).contains(candidate) ==> exists|
            called: Seq<char>,
            given: Seq<ExprView>,
        | #[trigger]
            plan_calls(plan, called, given) && candidate_of(called, given) == Some(candidate),
    decreases plan, 0int,
{
    law_plans_ask_for_their_conditions(left, name, args, candidate);
    law_plans_ask_for_their_conditions(right, name, args, candidate);
    lemma_joined_lists(plan_candidates(left), plan_candidates(right));
    if plan_candidates(plan).contains(candidate) {
        let part = if plan_candidates(left).contains(candidate) {
            left
        } else {
            right
        };
        let (called, given) = choose|called: Seq<char>, given: Seq<ExprView>| #[trigger]
            plan_calls(part, called, given) && candidate_of(called, given) == Some(candidate);
        assert(plan_calls(plan, called, given));
    }
}

/// A planner is told the cost of the key of a condition, and then that of the key with the literal
/// that is asked for, or those of the pairs that belong to the text that is looked for.
pub proof fn law_costs_name_the_key_first(
    operand: OperandView,
    key: Seq<char>,
    float_text: Seq<char>,
    pairs: Seq<(String, String)>,
    at: int,
)
    ensures
        ({
            let costs = costs_of(operand, key, float_text, pairs);
            &&& costs.len() >= 1
            &&& costs[0].key == key
            &&& costs[0].value is None
            &&& operand is Nothing ==> costs.len() == 1
            &&& operand matches OperandView::Literal(value) ==> {
                &&& literal_text(value, float_text) is None ==> costs.len() == 1
                &&& literal_text(value, float_text) matches Some(text) ==> costs.len() == 2
                    && costs[1].key == key && costs[1].value == Some(text)
            }
            &&& operand is Needle ==> {
                &&& costs.len() == 1 + pairs.len()
                &&& 0 <= at < pairs.len() ==> costs[1 + at].key == pairs[at].0@ && costs[1
                    + at].value == Some(pairs[at].1@)
            }
        }),
{
}

} // verus!
