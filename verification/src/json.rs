//! JSON documents.
use vstd::prelude::*;
use vstd::slice::slice_subrange;
use vstd::utf8::{decode_utf8, valid_utf8};

use crate::json_text::{
    all_digits, balanced, check_float_text, colon_from, escaped, find_json_colon, is_decimal,
    is_digit, is_float_text, is_mantissa, joined, law_escaped_text_is_read_back,
    law_join_then_split, lemma_bracketed, lemma_member_text, lemma_top_level_parts_len,
    lemma_trimmed_already, lowered, member_text, quoted, split_json_top_level, top_level_parts,
    trim_text, trimmed, unescape_json, unescaped, unseparated, unsigned, white_space,
};
use crate::text::{chars_of, same_text, string_of};

verus! {

/// A JSON document. A number is held by its text; the members of an object stand in document
/// order.
#[derive(Debug)]
pub enum JsonbValue {
    Null,
    Bool(bool),
    Number(String),
    String(String),
    Array(Vec<JsonbValue>),
    Object(Vec<(String, JsonbValue)>),
}

/// What a [`JsonbValue`] holds.
pub enum JsonView {
    Null,
    Bool(bool),
    Number(Seq<char>),
    String(Seq<char>),
    Array(Seq<JsonView>),
    Object(Seq<(Seq<char>, JsonView)>),
}

impl JsonbValue {
    /// What this document holds.
    pub open spec fn view(&self) -> JsonView
        decreases self,
    {
        match self {
            JsonbValue::Null => JsonView::Null,
            JsonbValue::Bool(b) => JsonView::Bool(*b),
            JsonbValue::Number(text) => JsonView::Number(text@),
            JsonbValue::String(text) => JsonView::String(text@),
            JsonbValue::Array(items) => JsonView::Array(
                Seq::new(
                    items@.len(),
                    |i: int|
                        if 0 <= i < items@.len() {
                            items@[i].view()
                        } else {
                            JsonView::Null
                        },
                ),
            ),
            JsonbValue::Object(members) => JsonView::Object(
                Seq::new(
                    members@.len(),
                    |i: int|
                        if 0 <= i < members@.len() {
                            (members@[i].0@, members@[i].1.view())
                        } else {
                            (Seq::empty(), JsonView::Null)
                        },
                ),
            ),
        }
    }
}

/// What the items of an array hold.
pub open spec fn items_view(items: Seq<JsonbValue>) -> Seq<JsonView> {
    items.map_values(|item: JsonbValue| item@)
}

/// What the members of an object hold.
pub open spec fn members_view(members: Seq<(String, JsonbValue)>) -> Seq<(Seq<char>, JsonView)> {
    members.map_values(|member: (String, JsonbValue)| (member.0@, member.1@))
}

/// A document of several items or members holds what they hold.
pub broadcast proof fn lemma_json_lists(value: JsonbValue)
    ensures
        #![trigger value@]
        value matches JsonbValue::Array(items) ==> value@ == JsonView::Array(items_view(items@)),
        value matches JsonbValue::Object(members) ==> value@ == JsonView::Object(
            members_view(members@),
        ),
{
    match value {
        JsonbValue::Array(items) => {
            assert(value@->Array_0 =~= items_view(items@));
        },
        JsonbValue::Object(members) => {
            assert(value@->Object_0 =~= members_view(members@));
        },
        _ => {},
    }
}

/// A text in double quotes.
pub open spec fn is_quoted(s: Seq<char>) -> bool {
    s.len() >= 2 && s[0] == '"' && s.last() == '"'
}

/// What stands between the quotes.
pub open spec fn unquoted(s: Seq<char>) -> Seq<char> {
    unescaped(s.subrange(1, s.len() - 1))
}

/// The document that a text stands for. Leading and trailing white space does not count.
pub open spec fn json_of(s: Seq<char>) -> Option<JsonView>
    decreases s.len(), 1nat, 0nat,
{
    let t = trimmed(s);
    if t == "null"@ {
        Some(JsonView::Null)
    } else if t == "true"@ {
        Some(JsonView::Bool(true))
    } else if t == "false"@ {
        Some(JsonView::Bool(false))
    } else if is_float_text(t) {
        Some(JsonView::Number(t))
    } else if is_quoted(t) {
        Some(JsonView::String(unquoted(t)))
    } else if t.len() > 0 && t[0] == '{' {
        if t.last() == '}' {
            let inner = trimmed(t.subrange(1, t.len() - 1));
            if inner.len() == 0 {
                Some(JsonView::Object(Seq::empty()))
            } else {
                match members_of(top_level_parts(inner, ','), s.len()) {
                    Some(members) => Some(JsonView::Object(members)),
                    None => None,
                }
            }
        } else {
            None
        }
    } else if t.len() > 0 && t[0] == '[' {
        if t.last() == ']' {
            let inner = trimmed(t.subrange(1, t.len() - 1));
            if inner.len() == 0 {
                Some(JsonView::Array(Seq::empty()))
            } else {
                match items_of(top_level_parts(inner, ','), s.len()) {
                    Some(items) => Some(JsonView::Array(items)),
                    None => None,
                }
            }
        } else {
            None
        }
    } else {
        None
    }
}

/// The member that a text of the form `"key": value` stands for. The value is shorter than the
/// enclosing text, whose length is `bound`.
pub open spec fn member_of(part: Seq<char>, bound: nat) -> Option<(Seq<char>, JsonView)>
    decreases bound, 0nat, 0nat,
{
    let pair = trimmed(part);
    match colon_from(pair, 0) {
        Some(colon) => {
            let key = trimmed(pair.take(colon));
            let value = trimmed(pair.skip(colon + 1));
            if is_quoted(key) && value.len() < bound {
                match json_of(value) {
                    Some(json) => Some((unquoted(key), json)),
                    None => None,
                }
            } else {
                None
            }
        },
        None => None,
    }
}

/// The members that texts stand for, if each of them stands for one.
pub open spec fn members_of(parts: Seq<Seq<char>>, bound: nat) -> Option<
    Seq<(Seq<char>, JsonView)>,
>
    decreases bound, 0nat, parts.len() + 1,
{
    if parts.len() == 0 {
        Some(Seq::empty())
    } else {
        match (members_of(parts.drop_last(), bound), member_of(parts.last(), bound)) {
            (Some(before), Some(member)) => Some(before.push(member)),
            _ => None,
        }
    }
}

/// The items that texts stand for, if each of them stands for one. They are shorter than the
/// enclosing text, whose length is `bound`.
pub open spec fn items_of(parts: Seq<Seq<char>>, bound: nat) -> Option<Seq<JsonView>>
    decreases bound, 0nat, parts.len() + 1,
{
    if parts.len() == 0 {
        Some(Seq::empty())
    } else if trimmed(parts.last()).len() < bound {
        match (items_of(parts.drop_last(), bound), json_of(trimmed(parts.last()))) {
            (Some(before), Some(item)) => Some(before.push(item)),
            _ => None,
        }
    } else {
        None
    }
}

/// No members come of texts of which a prefix gives none.
proof fn lemma_members_prefix(parts: Seq<Seq<char>>, bound: nat, k: int)
    requires
        0 <= k <= parts.len(),
        members_of(parts.take(k), bound) is None,
    ensures
        members_of(parts, bound) is None,
    decreases parts.len(),
{
    if k < parts.len() {
        assert(parts.drop_last().take(k) =~= parts.take(k));
        lemma_members_prefix(parts.drop_last(), bound, k);
    } else {
        assert(parts.take(k) =~= parts);
    }
}

/// No items come of texts of which a prefix gives none.
proof fn lemma_items_prefix(parts: Seq<Seq<char>>, bound: nat, k: int)
    requires
        0 <= k <= parts.len(),
        items_of(parts.take(k), bound) is None,
    ensures
        items_of(parts, bound) is None,
    decreases parts.len(),
{
    if k < parts.len() {
        assert(parts.drop_last().take(k) =~= parts.take(k));
        lemma_items_prefix(parts.drop_last(), bound, k);
    } else {
        assert(parts.take(k) =~= parts);
    }
}

/// The view of a parsed document.
pub open spec fn parsed_view(result: Option<JsonbValue>) -> Option<JsonView> {
    match result {
        Some(value) => Some(value@),
        None => None,
    }
}

/// Parses a text as a document.
pub fn parse_json_text(s: &[char]) -> (result: Option<JsonbValue>)
    ensures
        parsed_view(result) == json_of(s@),
    decreases s.len(), 2nat,
{
    broadcast use lemma_json_lists;

    let t = trim_text(s);
    let text = string_of(t);
    if same_text(text.as_str(), "null") {
        return Some(JsonbValue::Null);
    }
    if same_text(text.as_str(), "true") {
        return Some(JsonbValue::Bool(true));
    }
    if same_text(text.as_str(), "false") {
        return Some(JsonbValue::Bool(false));
    }
    if check_float_text(t) {
        return Some(JsonbValue::Number(text));
    }
    if t.len() >= 2 && t[0] == '"' && t[t.len() - 1] == '"' {
        let inner = slice_subrange(t, 1, t.len() - 1);
        return Some(JsonbValue::String(string_of(unescape_json(inner).as_slice())));
    }
    if t.len() > 0 && t[0] == '{' {
        if t[t.len() - 1] != '}' {
            return None;
        }
        let inner = trim_text(slice_subrange(t, 1, t.len() - 1));
        if inner.len() == 0 {
            let value = JsonbValue::Object(Vec::new());
            assert(members_view(value->Object_0@) =~= Seq::empty());
            return Some(value);
        }
        return match parse_json_object(inner, s.len()) {
            Some(members) => Some(JsonbValue::Object(members)),
            None => None,
        };
    }
    if t.len() > 0 && t[0] == '[' {
        if t[t.len() - 1] != ']' {
            return None;
        }
        let inner = trim_text(slice_subrange(t, 1, t.len() - 1));
        if inner.len() == 0 {
            let value = JsonbValue::Array(Vec::new());
            assert(items_view(value->Array_0@) =~= Seq::empty());
            return Some(value);
        }
        return match parse_json_array(inner, s.len()) {
            Some(items) => Some(JsonbValue::Array(items)),
            None => None,
        };
    }
    None
}

/// Parses what stands between the braces of an object. The enclosing text has `bound`
/// characters.
pub fn parse_json_object(inner: &[char], bound: usize) -> (result: Option<
    Vec<(String, JsonbValue)>,
>)
    requires
        inner.len() < bound,
    ensures
        match members_of(top_level_parts(inner@, ','), bound as nat) {
            Some(members) => result is Some && members_view(result->0@) == members,
            None => result is None,
        },
    decreases bound, 1nat,
{
    let parts = split_json_top_level(inner, ',');
    let ghost texts = top_level_parts(inner@, ',');
    proof {
        lemma_top_level_parts_len(inner@, ',');
    }
    let mut members: Vec<(String, JsonbValue)> = Vec::new();
    let mut i: usize = 0;
    while i < parts.len()
        invariant
            i <= parts.len(),
            inner.len() < bound,
            texts == top_level_parts(inner@, ','),
            parts.len() == texts.len(),
            forall|k: int| 0 <= k < parts.len() ==> (#[trigger] parts@[k])@ == texts[k],
            forall|k: int| 0 <= k < texts.len() ==> (#[trigger] texts[k]).len() <= inner.len(),
            members_of(texts.take(i as int), bound as nat) == Some(members_view(members@)),
        decreases parts.len() - i,
    {
        assert(texts.take(i + 1).drop_last() =~= texts.take(i as int));
        assert(texts.take(i + 1).last() == texts[i as int]);
        assert(texts[i as int].len() <= inner.len());
        let ghost part = texts[i as int];
        let ghost before = members_view(members@);
        let member = parse_json_member(parts[i], bound);
        match member {
            Some(member) => {
                members.push(member);
                assert(members_view(members@) =~= before.push((member.0@, member.1@)));
            },
            None => {
                proof {
                    lemma_members_prefix(texts, bound as nat, i + 1);
                }
                return None;
            },
        }
        i += 1;
    }
    assert(texts.take(texts.len() as int) =~= texts);
    Some(members)
}

/// Parses a text of the form `"key": value`. The enclosing text has `bound` characters.
fn parse_json_member(part: &[char], bound: usize) -> (result: Option<(String, JsonbValue)>)
    requires
        part.len() < bound,
    ensures
        match member_of(part@, bound as nat) {
            Some(member) => result is Some && ((result->0).0@, (result->0).1@) == member,
            None => result is None,
        },
    decreases bound, 0nat,
{
    let pair = trim_text(part);
    let colon = match find_json_colon(pair) {
        Some(colon) => colon,
        None => {
            return None;
        },
    };
    assert(pair@.subrange(0, colon as int) =~= pair@.take(colon as int));
    assert(pair@.subrange(colon + 1, pair@.len() as int) =~= pair@.skip(colon + 1));
    let key = trim_text(slice_subrange(pair, 0, colon));
    let value = trim_text(slice_subrange(pair, colon + 1, pair.len()));
    if key.len() >= 2 && key[0] == '"' && key[key.len() - 1] == '"' {
        let name = string_of(unescape_json(slice_subrange(key, 1, key.len() - 1)).as_slice());
        match parse_json_text(value) {
            Some(json) => Some((name, json)),
            None => None,
        }
    } else {
        None
    }
}

/// Parses what stands between the brackets of an array. The enclosing text has `bound`
/// characters.
pub fn parse_json_array(inner: &[char], bound: usize) -> (result: Option<Vec<JsonbValue>>)
    requires
        inner.len() < bound,
    ensures
        match items_of(top_level_parts(inner@, ','), bound as nat) {
            Some(items) => result is Some && items_view(result->0@) == items,
            None => result is None,
        },
    decreases bound, 1nat,
{
    let parts = split_json_top_level(inner, ',');
    let ghost texts = top_level_parts(inner@, ',');
    proof {
        lemma_top_level_parts_len(inner@, ',');
    }
    let mut items: Vec<JsonbValue> = Vec::new();
    let mut i: usize = 0;
    while i < parts.len()
        invariant
            i <= parts.len(),
            inner.len() < bound,
            texts == top_level_parts(inner@, ','),
            parts.len() == texts.len(),
            forall|k: int| 0 <= k < parts.len() ==> (#[trigger] parts@[k])@ == texts[k],
            forall|k: int| 0 <= k < texts.len() ==> (#[trigger] texts[k]).len() <= inner.len(),
            items_of(texts.take(i as int), bound as nat) == Some(items_view(items@)),
        decreases parts.len() - i,
    {
        assert(texts.take(i + 1).drop_last() =~= texts.take(i as int));
        assert(texts.take(i + 1).last() == texts[i as int]);
        assert(texts[i as int].len() <= inner.len());
        let ghost before = items_view(items@);
        match parse_json_text(trim_text(parts[i])) {
            Some(item) => {
                items.push(item);
                assert(items_view(items@) =~= before.push(item@));
            },
            None => {
                proof {
                    lemma_items_prefix(texts, bound as nat, i + 1);
                }
                return None;
            },
        }
        i += 1;
    }
    assert(texts.take(texts.len() as int) =~= texts);
    Some(items)
}

/// `core::str::from_utf8`: the text that the bytes encode, if they are valid UTF-8.
#[verifier::external_body]
pub(crate) fn utf8_text(bytes: &[u8]) -> (result: Option<String>)
    ensures
        match result {
            Some(text) => valid_utf8(bytes@) && text@ == decode_utf8(bytes@),
            None => !valid_utf8(bytes@),
        },
{
    core::str::from_utf8(bytes).ok().map(|text| text.to_owned())
}

/// The document that bytes stand for.
pub open spec fn json_of_bytes(bytes: Seq<u8>) -> Option<JsonView> {
    if valid_utf8(bytes) {
        json_of(decode_utf8(bytes))
    } else {
        None
    }
}

/// Parses bytes as a document.
pub fn parse_json_bytes(bytes: &[u8]) -> (result: Option<JsonbValue>)
    ensures
        parsed_view(result) == json_of_bytes(bytes@),
{
    match utf8_text(bytes) {
        Some(text) => parse_json_text(chars_of(text.as_str()).as_slice()),
        None => None,
    }
}

proof fn lemma_not_scalar(t: Seq<char>)
    requires
        t.len() > 0,
        t[0] == '"' || t[0] == '[' || t[0] == '{',
    ensures
        t != "null"@,
        t != "true"@,
        t != "false"@,
        !is_float_text(t),
{
    reveal_strlit("null");
    reveal_strlit("true");
    reveal_strlit("false");
    reveal_strlit("inf");
    reveal_strlit("infinity");
    reveal_strlit("nan");
    assert(unsigned(t) == t);
    assert(lowered(t)[0] == t[0]);
    assert(lowered("inf"@)[0] == 'i');
    assert(lowered("infinity"@)[0] == 'i');
    assert(lowered("nan"@)[0] == 'n');
    assert(!is_digit(t[0]));
    assert forall|part: Seq<char>| part.len() > 0 && part[0] == t[0] implies !#[trigger] is_mantissa(
        part,
    ) by {
        assert(!is_digit(part[0]));
        assert forall|k: int| 0 <= k < part.len() && #[trigger] part[k] == '.' implies !all_digits(
            part.take(k),
        ) by {
            assert(part.take(k)[0] == part[0]);
        }
    }
    assert forall|k: int| 0 <= k < t.len() implies !is_mantissa(#[trigger] t.take(k)) by {
        if k > 0 {
            assert(t.take(k)[0] == t[0]);
        }
    }
    if is_decimal(t) && !is_mantissa(t) {
        let k = choose|k: int|
            0 <= k < t.len() && (#[trigger] t[k] == 'e' || t[k] == 'E') && is_mantissa(t.take(k))
                && {
                let exponent = unsigned(t.skip(k + 1));
                exponent.len() > 0 && all_digits(exponent)
            };
        assert(is_mantissa(t.take(k)));
    }
}

/// A string is read back as the text that was written, whatever characters it holds.
pub proof fn law_strings_are_read_back(text: Seq<char>)
    ensures
        json_of(quoted(text)) == Some(JsonView::String(text)),
{
    let t = quoted(text);
    assert(t[0] == '"');
    assert(t.last() == '"');
    lemma_trimmed_already(t);
    lemma_not_scalar(t);
    assert(t.subrange(1, t.len() - 1) =~= escaped(text));
    law_escaped_text_is_read_back(text);
}

/// The words stand for null and the truths, with white space around them or without.
pub proof fn law_words_are_read(s: Seq<char>)
    ensures
        trimmed(s) == "null"@ ==> json_of(s) == Some(JsonView::Null),
        trimmed(s) == "true"@ ==> json_of(s) == Some(JsonView::Bool(true)),
        trimmed(s) == "false"@ ==> json_of(s) == Some(JsonView::Bool(false)),
        json_of(s) == Some(JsonView::Null) ==> trimmed(s) == "null"@,
        json_of(s) == Some(JsonView::Bool(true)) ==> trimmed(s) == "true"@,
        json_of(s) == Some(JsonView::Bool(false)) ==> trimmed(s) == "false"@,
{
    reveal_strlit("null");
    reveal_strlit("true");
    reveal_strlit("false");
    assert("null"@[0] == 'n');
    assert("true"@[0] == 't');
    assert("false"@[0] == 'f');
}

/// A text is written so that it can stand in an array or an object: nothing is to be trimmed, and
/// its commas stand in strings or brackets.
pub open spec fn is_whole(s: Seq<char>) -> bool {
    &&& s.len() > 0
    &&& !white_space(s[0])
    &&& !white_space(s.last())
    &&& balanced(s)
    &&& unseparated(s, ',')
}

proof fn lemma_joined_ends(parts: Seq<Seq<char>>)
    requires
        parts.len() > 0,
        forall|k: int| 0 <= k < parts.len() ==> is_whole(#[trigger] parts[k]),
    ensures
        joined(parts, ',').len() > 0,
        joined(parts, ',')[0] == parts[0][0],
        joined(parts, ',').last() == parts.last().last(),
        forall|k: int| 0 <= k < parts.len() ==> (#[trigger] parts[k]).len() <= joined(parts, ',').len(),
    decreases parts.len(),
{
    assert(is_whole(parts[parts.len() - 1]));
    if parts.len() > 1 {
        let front = parts.drop_last();
        assert(forall|k: int| 0 <= k < front.len() ==> front[k] == parts[k]);
        lemma_joined_ends(front);
        assert forall|k: int| 0 <= k < parts.len() implies (#[trigger] parts[k]).len() <= joined(
            parts,
            ',',
        ).len() by {
            if k < front.len() {
                assert(front[k].len() <= joined(front, ',').len());
            }
        }
    }
}

proof fn lemma_items(parts: Seq<Seq<char>>, items: Seq<JsonView>, bound: nat)
    requires
        parts.len() == items.len(),
        forall|k: int|
            0 <= k < parts.len() ==> is_whole(#[trigger] parts[k]) && parts[k].len() < bound
                && json_of(parts[k]) == Some(items[k]),
    ensures
        items_of(parts, bound) == Some(items),
    decreases parts.len(),
{
    if parts.len() > 0 {
        let front = parts.drop_last();
        assert(forall|k: int| 0 <= k < front.len() ==> front[k] == parts[k]);
        lemma_items(front, items.drop_last(), bound);
        let last = parts[parts.len() - 1];
        assert(is_whole(last));
        lemma_trimmed_already(last);
        assert(items.drop_last().push(items.last()) =~= items);
    } else {
        assert(items =~= Seq::empty());
    }
}

/// An array is read as its items in order, with nothing but commas between them. What was read so can
/// stand in an array or an object again.
pub proof fn law_arrays_are_read_back(parts: Seq<Seq<char>>, items: Seq<JsonView>)
    requires
        parts.len() > 0,
        parts.len() == items.len(),
        forall|k: int|
            0 <= k < parts.len() ==> is_whole(#[trigger] parts[k]) && json_of(parts[k]) == Some(
                items[k],
            ),
    ensures
        json_of(seq!['['] + joined(parts, ',') + seq![']']) == Some(JsonView::Array(items)),
        is_whole(seq!['['] + joined(parts, ',') + seq![']']),
        json_of(seq!['[', ']']) == Some(JsonView::Array(Seq::empty())),
{
    let body = joined(parts, ',');
    let t = seq!['['] + body + seq![']'];
    assert(is_whole(parts[0]) && is_whole(parts[parts.len() - 1]));
    lemma_joined_ends(parts);
    law_join_then_split(parts);
    lemma_bracketed('[', body, ']');
    assert(t[0] == '[' && t.last() == ']');
    lemma_trimmed_already(t);
    lemma_not_scalar(t);
    assert(t.subrange(1, t.len() - 1) =~= body);
    lemma_trimmed_already(body);
    lemma_items(parts, items, t.len());
    let empty = seq!['[', ']'];
    lemma_trimmed_already(empty);
    lemma_not_scalar(empty);
    assert(empty.subrange(1, 1) =~= Seq::empty());
    assert(trimmed(empty.subrange(1, 1)) =~= Seq::empty());
}

proof fn lemma_members(
    keys: Seq<Seq<char>>,
    values: Seq<Seq<char>>,
    items: Seq<JsonView>,
    parts: Seq<Seq<char>>,
    bound: nat,
)
    requires
        keys.len() == values.len(),
        keys.len() == items.len(),
        keys.len() == parts.len(),
        forall|k: int|
            0 <= k < parts.len() ==> (#[trigger] parts[k]) == member_text(keys[k], values[k])
                && is_whole(values[k]) && parts[k].len() < bound && json_of(values[k]) == Some(
                items[k],
            ),
    ensures
        members_of(parts, bound) == Some(
            Seq::new(keys.len(), |k: int| (keys[k], items[k])),
        ),
    decreases parts.len(),
{
    let expected = Seq::new(keys.len(), |k: int| (keys[k], items[k]));
    if parts.len() > 0 {
        let last = parts.len() - 1;
        let front = parts.drop_last();
        assert(forall|k: int| 0 <= k < front.len() ==> front[k] == parts[k]);
        lemma_members(
            keys.drop_last(),
            values.drop_last(),
            items.drop_last(),
            front,
            bound,
        );
        let part = parts[last];
        let key = keys[last];
        let value = values[last];
        let name = quoted(key);
        assert(part == member_text(key, value));
        lemma_member_text(key, value);
        assert(name[0] == '"' && name.last() == '"');
        assert(part[0] == name[0]);
        assert(part.last() == value.last());
        lemma_trimmed_already(part);
        assert(part.take(name.len() as int) =~= name);
        assert(part.skip(name.len() as int + 1) =~= value);
        lemma_trimmed_already(name);
        lemma_trimmed_already(value);
        assert(name.subrange(1, name.len() - 1) =~= escaped(key));
        law_escaped_text_is_read_back(key);
        assert(member_of(part, bound) == Some((key, items[last])));
        assert(Seq::new(
            keys.drop_last().len(),
            |k: int| (keys.drop_last()[k], items.drop_last()[k]),
        ).push((key, items[last])) =~= expected);
    } else {
        assert(expected =~= Seq::empty());
    }
}

/// An object is read as its members in order, each under its key. What was read so can stand in an
/// array or an object again.
pub proof fn law_objects_are_read_back(
    keys: Seq<Seq<char>>,
    values: Seq<Seq<char>>,
    items: Seq<JsonView>,
    parts: Seq<Seq<char>>,
)
    requires
        parts.len() > 0,
        keys.len() == values.len(),
        keys.len() == items.len(),
        keys.len() == parts.len(),
        forall|k: int|
            0 <= k < parts.len() ==> (#[trigger] parts[k]) == member_text(keys[k], values[k])
                && is_whole(values[k]) && json_of(values[k]) == Some(items[k]),
    ensures
        json_of(seq!['{'] + joined(parts, ',') + seq!['}']) == Some(
            JsonView::Object(Seq::new(keys.len(), |k: int| (keys[k], items[k]))),
        ),
        is_whole(seq!['{'] + joined(parts, ',') + seq!['}']),
        json_of(seq!['{', '}']) == Some(JsonView::Object(Seq::empty())),
{
    let body = joined(parts, ',');
    let t = seq!['{'] + body + seq!['}'];
    assert forall|k: int| 0 <= k < parts.len() implies is_whole(#[trigger] parts[k]) by {
        assert(parts[k] == member_text(keys[k], values[k]));
        lemma_member_text(keys[k], values[k]);
        assert(parts[k][0] == '"');
        assert(parts[k].last() == values[k].last());
    }
    assert(is_whole(parts[0]) && is_whole(parts[parts.len() - 1]));
    lemma_joined_ends(parts);
    law_join_then_split(parts);
    lemma_bracketed('{', body, '}');
    assert(t[0] == '{' && t.last() == '}');
    lemma_trimmed_already(t);
    lemma_not_scalar(t);
    assert(t.subrange(1, t.len() - 1) =~= body);
    lemma_trimmed_already(body);
    lemma_members(keys, values, items, parts, t.len());
    let empty = seq!['{', '}'];
    lemma_trimmed_already(empty);
    lemma_not_scalar(empty);
    assert(empty.subrange(1, 1) =~= Seq::empty());
    assert(trimmed(empty.subrange(1, 1)) =~= Seq::empty());
}

} // verus!
