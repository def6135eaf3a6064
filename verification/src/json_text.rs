//! Scanning of JSON texts.
use vstd::prelude::*;
use vstd::slice::slice_subrange;

verus! {

/// The characters that trimming removes: the Unicode white space.
pub open spec fn white_space(c: char) -> bool {
    ||| '\u{9}' <= c <= '\u{d}'
    ||| c == '\u{20}'
    ||| c == '\u{85}'
    ||| c == '\u{a0}'
    ||| c == '\u{1680}'
    ||| '\u{2000}' <= c <= '\u{200a}'
    ||| c == '\u{2028}'
    ||| c == '\u{2029}'
    ||| c == '\u{202f}'
    ||| c == '\u{205f}'
    ||| c == '\u{3000}'
}

/// Tells whether trimming removes a character.
pub fn is_white_space(c: char) -> (result: bool)
    ensures
        result == white_space(c),
{
    ('\u{9}' <= c && c <= '\u{d}') || c == '\u{20}' || c == '\u{85}' || c == '\u{a0}' || c
        == '\u{1680}' || ('\u{2000}' <= c && c <= '\u{200a}') || c == '\u{2028}' || c
        == '\u{2029}' || c == '\u{202f}' || c == '\u{205f}' || c == '\u{3000}'
}

/// A text without its leading white space.
pub open spec fn trimmed_start(s: Seq<char>) -> Seq<char>
    decreases s.len(),
{
    if s.len() > 0 && white_space(s[0]) {
        trimmed_start(s.skip(1))
    } else {
        s
    }
}

/// A text without its trailing white space.
pub open spec fn trimmed_end(s: Seq<char>) -> Seq<char>
    decreases s.len(),
{
    if s.len() > 0 && white_space(s.last()) {
        trimmed_end(s.drop_last())
    } else {
        s
    }
}

/// A text without its leading and trailing white space.
pub open spec fn trimmed(s: Seq<char>) -> Seq<char> {
    trimmed_end(trimmed_start(s))
}

/// Removes leading and trailing white space.
pub fn trim_text(s: &[char]) -> (result: &[char])
    ensures
        result@ == trimmed(s@),
        result.len() <= s.len(),
{
    let mut start: usize = 0;
    assert(s@.skip(0) =~= s@);
    while start < s.len() && is_white_space(s[start])
        invariant
            start <= s.len(),
            trimmed_start(s@.skip(start as int)) == trimmed_start(s@),
        decreases s.len() - start,
    {
        assert(s@.skip(start as int).skip(1) =~= s@.skip(start + 1));
        start += 1;
    }
    let ghost front = s@.skip(start as int);
    assert(trimmed_start(front) == front);
    let mut end: usize = s.len();
    while start < end && is_white_space(s[end - 1])
        invariant
            start <= end <= s.len(),
            front == s@.skip(start as int),
            trimmed_end(s@.subrange(start as int, end as int)) == trimmed_end(front),
        decreases end - start,
    {
        assert(s@.subrange(start as int, end as int).drop_last() =~= s@.subrange(
            start as int,
            end - 1,
        ));
        end -= 1;
    }
    assert(s@.subrange(start as int, s@.len() as int) =~= front);
    slice_subrange(s, start, end)
}

/// What one more character does to a scan.
pub struct ScanState {
    pub depth: int,
    pub in_string: bool,
    pub escape: bool,
}

/// The scan after one more character. A backslash inside a string escapes the next character;
/// brackets outside strings change the depth.
pub open spec fn scan_step(state: ScanState, c: char) -> ScanState {
    if state.escape {
        ScanState { escape: false, ..state }
    } else if c == '\\' && state.in_string {
        ScanState { escape: true, ..state }
    } else if c == '"' {
        ScanState { in_string: !state.in_string, ..state }
    } else if state.in_string {
        state
    } else if c == '{' || c == '[' {
        ScanState { depth: state.depth + 1, ..state }
    } else if c == '}' || c == ']' {
        ScanState { depth: state.depth - 1, ..state }
    } else {
        state
    }
}

/// The scan after the first `i` characters.
pub open spec fn scan_at(s: Seq<char>, i: int) -> ScanState
    decreases i,
{
    if i <= 0 {
        ScanState { depth: 0, in_string: false, escape: false }
    } else {
        scan_step(scan_at(s, i - 1), s[i - 1])
    }
}

/// A character that the scan sees outside strings and escapes.
pub open spec fn is_plain(s: Seq<char>, i: int) -> bool {
    !scan_at(s, i).escape && !scan_at(s, i).in_string && s[i] != '"'
}

/// A separator outside strings and brackets.
pub open spec fn is_separator(s: Seq<char>, sep: char, i: int) -> bool {
    &&& is_plain(s, i)
    &&& s[i] == sep
    &&& !(sep == '{' || sep == '[' || sep == '}' || sep == ']')
    &&& scan_at(s, i).depth == 0
}

/// Where the part that holds position `i` starts: behind the last separator before `i`.
pub open spec fn part_start(s: Seq<char>, sep: char, i: int) -> int
    decreases i,
{
    if i <= 0 {
        0
    } else if is_separator(s, sep, i - 1) {
        i
    } else {
        part_start(s, sep, i - 1)
    }
}

/// The parts that end before position `i`.
pub open spec fn parts_before(s: Seq<char>, sep: char, i: int) -> Seq<Seq<char>>
    decreases i,
{
    if i <= 0 {
        Seq::empty()
    } else if is_separator(s, sep, i - 1) {
        parts_before(s, sep, i - 1).push(s.subrange(part_start(s, sep, i - 1), i - 1))
    } else {
        parts_before(s, sep, i - 1)
    }
}

/// The parts of a text between its separators outside strings and brackets.
pub open spec fn top_level_parts(s: Seq<char>, sep: char) -> Seq<Seq<char>> {
    let n = s.len() as int;
    parts_before(s, sep, n).push(s.subrange(part_start(s, sep, n), n))
}

/// A part starts at or before the position it holds.
pub proof fn lemma_part_start(s: Seq<char>, sep: char, i: int)
    requires
        0 <= i,
    ensures
        0 <= part_start(s, sep, i) <= i,
    decreases i,
{
    if i > 0 {
        lemma_part_start(s, sep, i - 1);
    }
}

/// No part is longer than the text.
pub proof fn lemma_parts_len(s: Seq<char>, sep: char, i: int)
    requires
        0 <= i <= s.len(),
    ensures
        forall|k: int|
            0 <= k < parts_before(s, sep, i).len() ==> (#[trigger] parts_before(s, sep, i)[k]).len()
                <= s.len(),
    decreases i,
{
    if i > 0 {
        lemma_parts_len(s, sep, i - 1);
        lemma_part_start(s, sep, i - 1);
        let before = parts_before(s, sep, i - 1);
        assert forall|k: int| 0 <= k < parts_before(s, sep, i).len() implies (
        #[trigger] parts_before(s, sep, i)[k]).len() <= s.len() by {
            if k < before.len() {
                assert(parts_before(s, sep, i)[k] == before[k]);
            }
        }
    }
}

/// No part of a text is longer than the text.
pub proof fn lemma_top_level_parts_len(s: Seq<char>, sep: char)
    ensures
        forall|k: int|
            0 <= k < top_level_parts(s, sep).len() ==> (#[trigger] top_level_parts(s, sep)[k]).len()
                <= s.len(),
{
    lemma_parts_len(s, sep, s.len() as int);
    lemma_part_start(s, sep, s.len() as int);
}

/// The texts put together with a separator between them.
pub open spec fn joined(parts: Seq<Seq<char>>, sep: char) -> Seq<char>
    decreases parts.len(),
{
    if parts.len() == 0 {
        Seq::empty()
    } else if parts.len() == 1 {
        parts[0]
    } else {
        joined(parts.drop_last(), sep).push(sep) + parts.last()
    }
}

proof fn lemma_joined_prefix(s: Seq<char>, sep: char, i: int)
    requires
        0 <= i <= s.len(),
    ensures
        joined(parts_before(s, sep, i).push(s.subrange(part_start(s, sep, i), i)), sep) == s.take(i),
    decreases i,
{
    let start = part_start(s, sep, i);
    lemma_part_start(s, sep, i);
    if i == 0 {
        let parts = parts_before(s, sep, 0).push(s.subrange(0, 0));
        assert(parts[0] =~= s.take(0));
    } else {
        lemma_joined_prefix(s, sep, i - 1);
        lemma_part_start(s, sep, i - 1);
        let before = parts_before(s, sep, i - 1);
        let open = s.subrange(part_start(s, sep, i - 1), i - 1);
        let parts = parts_before(s, sep, i).push(s.subrange(start, i));
        if is_separator(s, sep, i - 1) {
            assert(parts.drop_last() =~= before.push(open));
            assert(parts.last() =~= Seq::empty());
            assert(joined(parts, sep) =~= s.take(i - 1).push(sep));
            assert(s.take(i) =~= s.take(i - 1).push(s[i - 1]));
        } else {
            let longer = open.push(s[i - 1]);
            assert(s.subrange(start, i) =~= longer);
            assert(parts =~= before.push(longer));
            assert(parts.drop_last() =~= before);
            assert(before.push(open).drop_last() =~= before);
            assert(s.take(i) =~= s.take(i - 1).push(s[i - 1]));
            if before.len() == 0 {
                assert(joined(parts, sep) =~= longer);
            } else {
                assert(joined(parts, sep) =~= joined(before.push(open), sep).push(s[i - 1]));
            }
        }
    }
}

/// Splitting a text and putting the parts together with the separator gives the text back.
pub proof fn law_split_then_join(s: Seq<char>, sep: char)
    ensures
        joined(top_level_parts(s, sep), sep) == s,
{
    lemma_joined_prefix(s, sep, s.len() as int);
    assert(s.take(s.len() as int) =~= s);
}

/// Splits a text at its separators outside strings and brackets.
pub fn split_json_top_level<'a>(s: &'a [char], sep: char) -> (parts: Vec<&'a [char]>)
    ensures
        parts.len() == top_level_parts(s@, sep).len(),
        forall|k: int| 0 <= k < parts.len() ==> (#[trigger] parts@[k])@ == top_level_parts(s@, sep)[k],
{
    let mut parts: Vec<&'a [char]> = Vec::new();
    let mut depth: i128 = 0;
    let mut in_string = false;
    let mut escape = false;
    let mut start: usize = 0;
    let mut i: usize = 0;
    while i < s.len()
        invariant
            i <= s.len(),
            scan_at(s@, i as int) == (ScanState { depth: depth as int, in_string, escape }),
            -(i as int) <= depth <= i,
            start == part_start(s@, sep, i as int),
            start <= i,
            parts.len() == parts_before(s@, sep, i as int).len(),
            forall|k: int|
                0 <= k < parts.len() ==> (#[trigger] parts@[k])@ == parts_before(
                    s@,
                    sep,
                    i as int,
                )[k],
        decreases s.len() - i,
    {
        let c = s[i];
        let ghost here = scan_at(s@, i as int);
        assert(scan_at(s@, i + 1) == scan_step(here, c));
        if escape {
            escape = false;
        } else if c == '\\' && in_string {
            escape = true;
        } else if c == '"' {
            in_string = !in_string;
        } else if in_string {
        } else if c == '{' || c == '[' {
            depth += 1;
        } else if c == '}' || c == ']' {
            depth -= 1;
        } else if c == sep && depth == 0 {
            parts.push(slice_subrange(s, start, i));
            start = i + 1;
        }
        i += 1;
    }
    proof {
        lemma_part_start(s@, sep, s@.len() as int);
    }
    parts.push(slice_subrange(s, start, s.len()));
    parts
}

/// The first colon outside strings at or behind position `i`.
pub open spec fn colon_from(s: Seq<char>, i: int) -> Option<int>
    decreases s.len() - i,
{
    if i < 0 || i >= s.len() {
        None
    } else if is_plain(s, i) && s[i] == ':' {
        Some(i)
    } else {
        colon_from(s, i + 1)
    }
}

/// Finds the first colon outside strings.
pub fn find_json_colon(s: &[char]) -> (found: Option<usize>)
    ensures
        match colon_from(s@, 0) {
            Some(at) => found == Some(at as usize) && 0 <= at < s.len(),
            None => found is None,
        },
{
    let mut in_string = false;
    let mut escape = false;
    let mut i: usize = 0;
    while i < s.len()
        invariant
            i <= s.len(),
            scan_at(s@, i as int).in_string == in_string,
            scan_at(s@, i as int).escape == escape,
            colon_from(s@, i as int) == colon_from(s@, 0),
        decreases s.len() - i,
    {
        let c = s[i];
        assert(scan_at(s@, i + 1) == scan_step(scan_at(s@, i as int), c));
        if escape {
            escape = false;
        } else if c == '\\' && in_string {
            escape = true;
        } else if c == '"' {
            in_string = !in_string;
        } else if !in_string && c == ':' {
            return Some(i);
        }
        i += 1;
    }
    None
}

/// What a backslash in front of a character stands for, if it is an escape.
pub open spec fn escape_meaning(c: char) -> Option<char> {
    if c == 'n' {
        Some('\n')
    } else if c == 't' {
        Some('\t')
    } else if c == 'r' {
        Some('\r')
    } else if c == '"' || c == '\\' || c == '/' {
        Some(c)
    } else {
        None
    }
}

/// A text with its escapes resolved. A backslash that starts no known escape stays.
pub open spec fn unescaped(s: Seq<char>) -> Seq<char>
    decreases s.len(),
{
    if s.len() == 0 {
        Seq::empty()
    } else if s[0] != '\\' {
        seq![s[0]] + unescaped(s.skip(1))
    } else if s.len() == 1 {
        seq!['\\']
    } else {
        match escape_meaning(s[1]) {
            Some(c) => seq![c] + unescaped(s.skip(2)),
            None => seq!['\\', s[1]] + unescaped(s.skip(2)),
        }
    }
}

/// Resolves the escapes of a text.
pub fn unescape_json(s: &[char]) -> (result: Vec<char>)
    ensures
        result@ == unescaped(s@),
{
    let mut result: Vec<char> = Vec::new();
    let mut i: usize = 0;
    assert(s@.skip(0) =~= s@);
    assert(result@ + unescaped(s@) =~= unescaped(s@));
    while i < s.len()
        invariant
            i <= s.len(),
            result@ + unescaped(s@.skip(i as int)) == unescaped(s@),
        decreases s.len() - i,
    {
        let ghost before = result@;
        let ghost rest = s@.skip(i as int);
        let c = s[i];
        if c != '\\' {
            result.push(c);
            assert(rest.skip(1) =~= s@.skip(i + 1));
            assert(result@ + unescaped(s@.skip(i + 1)) =~= before + unescaped(rest));
            i += 1;
        } else if i + 1 == s.len() {
            result.push('\\');
            assert(s@.skip(i + 1) =~= Seq::empty());
            assert(result@ + unescaped(s@.skip(i + 1)) =~= before + unescaped(rest));
            i += 1;
        } else {
            let next = s[i + 1];
            if next == 'n' {
                result.push('\n');
            } else if next == 't' {
                result.push('\t');
            } else if next == 'r' {
                result.push('\r');
            } else if next == '"' || next == '\\' || next == '/' {
                result.push(next);
            } else {
                result.push('\\');
                result.push(next);
            }
            assert(rest.skip(2) =~= s@.skip(i + 2));
            assert(result@ + unescaped(s@.skip(i + 2)) =~= before + unescaped(rest));
            i += 2;
        }
    }
    assert(s@.skip(s@.len() as int) =~= Seq::empty());
    assert(result@ + Seq::empty() =~= result@);
    result
}

/// A text without backslashes is its own unescaped form.
pub proof fn law_unescape_keeps_plain_text(s: Seq<char>)
    requires
        !s.contains('\\'),
    ensures
        unescaped(s) == s,
    decreases s.len(),
{
    if s.len() > 0 {
        assert(s.contains(s[0]));
        assert forall|c: char| s.skip(1).contains(c) implies s.contains(c) by {
            let k = choose|k: int| 0 <= k < s.skip(1).len() && s.skip(1)[k] == c;
            assert(s[k + 1] == c);
        }
        law_unescape_keeps_plain_text(s.skip(1));
        assert(seq![s[0]] + s.skip(1) =~= s);
    }
}

/// A decimal digit.
pub open spec fn is_digit(c: char) -> bool {
    '0' <= c <= '9'
}

/// Only decimal digits.
pub open spec fn all_digits(s: Seq<char>) -> bool {
    forall|i: int| 0 <= i < s.len() ==> is_digit(#[trigger] s[i])
}

/// Digits, or digits around one point with at least one digit.
pub open spec fn is_mantissa(s: Seq<char>) -> bool {
    ||| s.len() > 0 && all_digits(s)
    ||| s.len() > 1 && exists|k: int|
        0 <= k < s.len() && #[trigger] s[k] == '.' && all_digits(s.take(k)) && all_digits(
            s.skip(k + 1),
        )
}

/// A text without its sign.
pub open spec fn unsigned(s: Seq<char>) -> Seq<char> {
    if s.len() > 0 && (s[0] == '+' || s[0] == '-') {
        s.skip(1)
    } else {
        s
    }
}

/// A mantissa, with or without an exponent behind it.
pub open spec fn is_decimal(s: Seq<char>) -> bool {
    ||| is_mantissa(s)
    ||| exists|k: int|
        0 <= k < s.len() && (#[trigger] s[k] == 'e' || s[k] == 'E') && is_mantissa(s.take(k)) && {
            let exponent = unsigned(s.skip(k + 1));
            exponent.len() > 0 && all_digits(exponent)
        }
}

/// The lower case form of an ASCII letter; other characters stay.
pub open spec fn ascii_lower(c: char) -> char {
    if 'A' <= c <= 'Z' {
        ((c as u8 + 32) as u8) as char
    } else {
        c
    }
}

/// A text with its ASCII letters in lower case.
pub open spec fn lowered(s: Seq<char>) -> Seq<char> {
    s.map_values(|c: char| ascii_lower(c))
}

/// The lower case form of an ASCII letter; other characters stay.
pub fn to_ascii_lower(c: char) -> (result: char)
    ensures
        result == ascii_lower(c),
{
    if 'A' <= c && c <= 'Z' {
        ((c as u8) + 32) as char
    } else {
        c
    }
}

/// Tells whether two texts differ in the case of ASCII letters at most.
pub fn same_ignoring_case(left: &[char], right: &[char]) -> (same: bool)
    ensures
        same == (lowered(left@) == lowered(right@)),
{
    if left.len() != right.len() {
        assert(lowered(left@).len() != lowered(right@).len());
        return false;
    }
    let mut i: usize = 0;
    while i < left.len()
        invariant
            i <= left.len(),
            left.len() == right.len(),
            forall|j: int| 0 <= j < i ==> ascii_lower(#[trigger] left@[j]) == ascii_lower(right@[j]),
        decreases left.len() - i,
    {
        if to_ascii_lower(left[i]) != to_ascii_lower(right[i]) {
            assert(lowered(left@)[i as int] != lowered(right@)[i as int]);
            return false;
        }
        i += 1;
    }
    assert(lowered(left@) =~= lowered(right@));
    true
}

/// A text that stands for a floating point number: a sign or none, then `inf`, `infinity` or
/// `nan` in any case, or a decimal number.
pub open spec fn is_float_text(s: Seq<char>) -> bool {
    let body = unsigned(s);
    ||| lowered(body) == lowered("inf"@)
    ||| lowered(body) == lowered("infinity"@)
    ||| lowered(body) == lowered("nan"@)
    ||| is_decimal(body)
}

/// Tells whether a text holds digits alone.
fn only_digits(s: &[char]) -> (result: bool)
    ensures
        result == all_digits(s@),
{
    let mut i: usize = 0;
    while i < s.len()
        invariant
            i <= s.len(),
            forall|j: int| 0 <= j < i ==> is_digit(#[trigger] s@[j]),
        decreases s.len() - i,
    {
        if !('0' <= s[i] && s[i] <= '9') {
            assert(!is_digit(s@[i as int]));
            return false;
        }
        i += 1;
    }
    true
}

/// Tells whether a text is a mantissa.
fn check_mantissa(s: &[char]) -> (result: bool)
    ensures
        result == is_mantissa(s@),
{
    let mut k: usize = 0;
    while k < s.len() && '0' <= s[k] && s[k] <= '9'
        invariant
            k <= s.len(),
            forall|j: int| 0 <= j < k ==> is_digit(#[trigger] s@[j]),
        decreases s.len() - k,
    {
        k += 1;
    }
    if k == s.len() {
        assert(s@.len() > 0 ==> all_digits(s@));
        return s.len() > 0;
    }
    assert(!is_digit(s@[k as int]));
    if s[k] != '.' {
        proof {
            assert forall|p: int| 0 <= p < s@.len() && #[trigger] s@[p] == '.' implies !(all_digits(
                s@.take(p),
            ) && all_digits(s@.skip(p + 1))) by {
                if p > k {
                    assert(s@.take(p)[k as int] == s@[k as int]);
                } else {
                    assert(!is_digit('.'));
                }
            }
        }
        return false;
    }
    let rest = slice_subrange(s, k + 1, s.len());
    assert(rest@ =~= s@.skip(k + 1));
    let result = s.len() > 1 && only_digits(rest);
    proof {
        assert(all_digits(s@.take(k as int)));
        if result {
            assert(s@[k as int] == '.');
        } else if s@.len() > 1 {
            assert forall|p: int| 0 <= p < s@.len() && #[trigger] s@[p] == '.' implies !(all_digits(
                s@.take(p),
            ) && all_digits(s@.skip(p + 1))) by {
                if p > k {
                    assert(s@.take(p)[k as int] == s@[k as int]);
                } else if p < k {
                    assert(!is_digit('.'));
                }
            }
        }
    }
    result
}

/// Cuts off a sign.
fn without_sign(s: &[char]) -> (result: &[char])
    ensures
        result@ == unsigned(s@),
{
    if s.len() > 0 && (s[0] == '+' || s[0] == '-') {
        let rest = slice_subrange(s, 1, s.len());
        assert(rest@ =~= s@.skip(1));
        rest
    } else {
        s
    }
}

/// A mantissa holds no letter.
proof fn lemma_mantissa_chars(s: Seq<char>, k: int)
    requires
        is_mantissa(s),
        0 <= k < s.len(),
    ensures
        is_digit(s[k]) || s[k] == '.',
{
    if !(s.len() > 0 && all_digits(s)) {
        let p = choose|p: int|
            0 <= p < s.len() && #[trigger] s[p] == '.' && all_digits(s.take(p)) && all_digits(
                s.skip(p + 1),
            );
        if k < p {
            assert(is_digit(s.take(p)[k]));
        } else if k > p {
            assert(is_digit(s.skip(p + 1)[k - p - 1]));
        }
    }
}

/// Tells whether a text is a decimal number.
fn check_decimal(s: &[char]) -> (result: bool)
    ensures
        result == is_decimal(s@),
{
    let mut k: usize = 0;
    while k < s.len() && s[k] != 'e' && s[k] != 'E'
        invariant
            k <= s.len(),
            forall|j: int| 0 <= j < k ==> (#[trigger] s@[j]) != 'e' && s@[j] != 'E',
        decreases s.len() - k,
    {
        k += 1;
    }
    if k == s.len() {
        return check_mantissa(s);
    }
    let mantissa = slice_subrange(s, 0, k);
    assert(mantissa@ =~= s@.take(k as int));
    let tail = slice_subrange(s, k + 1, s.len());
    assert(tail@ =~= s@.skip(k + 1));
    let exponent = without_sign(tail);
    let result = check_mantissa(mantissa) && exponent.len() > 0 && only_digits(exponent);
    proof {
        assert(s@[k as int] == 'e' || s@[k as int] == 'E');
        if is_mantissa(s@) {
            lemma_mantissa_chars(s@, k as int);
        }
        if !result && is_decimal(s@) {
            let p = choose|p: int|
                0 <= p < s@.len() && (#[trigger] s@[p] == 'e' || s@[p] == 'E') && is_mantissa(
                    s@.take(p),
                ) && {
                    let exponent = unsigned(s@.skip(p + 1));
                    exponent.len() > 0 && all_digits(exponent)
                };
            assert(p >= k);
            if p > k {
                lemma_mantissa_chars(s@.take(p), k as int);
            }
        }
    }
    result
}

/// Tells whether a text stands for a floating point number.
pub fn check_float_text(s: &[char]) -> (result: bool)
    ensures
        result == is_float_text(s@),
{
    let body = without_sign(s);
    same_ignoring_case(body, crate::text::chars_of("inf").as_slice()) || same_ignoring_case(
        body,
        crate::text::chars_of("infinity").as_slice(),
    ) || same_ignoring_case(body, crate::text::chars_of("nan").as_slice()) || check_decimal(body)
}

/// How a character is written inside a string.
pub open spec fn escape_of(c: char) -> Seq<char> {
    if c == '"' || c == '\\' {
        seq!['\\', c]
    } else if c == '\n' {
        seq!['\\', 'n']
    } else if c == '\t' {
        seq!['\\', 't']
    } else if c == '\r' {
        seq!['\\', 'r']
    } else {
        seq![c]
    }
}

/// How a text is written inside a string.
pub open spec fn escaped(s: Seq<char>) -> Seq<char>
    decreases s.len(),
{
    if s.len() == 0 {
        Seq::empty()
    } else {
        escape_of(s[0]) + escaped(s.skip(1))
    }
}

/// A text that is written with escapes is read back.
pub proof fn law_escaped_text_is_read_back(s: Seq<char>)
    ensures
        unescaped(escaped(s)) == s,
    decreases s.len(),
{
    if s.len() > 0 {
        let rest = escaped(s.skip(1));
        let all = escaped(s);
        law_escaped_text_is_read_back(s.skip(1));
        if escape_of(s[0]).len() == 1 {
            assert(all.skip(1) =~= rest);
        } else {
            assert(all.skip(2) =~= rest);
        }
        assert(seq![s[0]] + s.skip(1) =~= s);
    }
}

/// Trimming takes white space off both ends and nothing else.
pub proof fn law_trimming_takes_white_space_off(s: Seq<char>) -> (ends: (int, int))
    ensures
        0 <= ends.0 <= ends.1 <= s.len(),
        trimmed(s) == s.subrange(ends.0, ends.1),
        forall|i: int| 0 <= i < ends.0 ==> white_space(#[trigger] s[i]),
        forall|i: int| ends.1 <= i < s.len() ==> white_space(#[trigger] s[i]),
        trimmed(s).len() > 0 ==> !white_space(trimmed(s)[0]) && !white_space(trimmed(s).last()),
{
    let start = lemma_trimmed_start(s);
    let front = trimmed_start(s);
    let count = lemma_trimmed_end(front);
    assert(trimmed(s) =~= s.subrange(start, start + count));
    assert forall|i: int| start + count <= i < s.len() implies white_space(#[trigger] s[i]) by {
        assert(front[i - start] == s[i]);
    }
    if count > 0 {
        assert(front[0] == s[start]);
    }
    (start, start + count)
}

proof fn lemma_trimmed_start(s: Seq<char>) -> (start: int)
    ensures
        0 <= start <= s.len(),
        trimmed_start(s) == s.skip(start),
        forall|i: int| 0 <= i < start ==> white_space(#[trigger] s[i]),
        start < s.len() ==> !white_space(s[start]),
    decreases s.len(),
{
    if s.len() > 0 && white_space(s[0]) {
        let rest = s.skip(1);
        let start = lemma_trimmed_start(rest);
        assert(rest.skip(start) =~= s.skip(start + 1));
        assert forall|i: int| 0 <= i < start + 1 implies white_space(#[trigger] s[i]) by {
            if i > 0 {
                assert(rest[i - 1] == s[i]);
            }
        }
        if start < rest.len() {
            assert(rest[start] == s[start + 1]);
        }
        start + 1
    } else {
        assert(s.skip(0) =~= s);
        0
    }
}

proof fn lemma_trimmed_end(s: Seq<char>) -> (count: int)
    ensures
        0 <= count <= s.len(),
        trimmed_end(s) == s.take(count),
        forall|i: int| count <= i < s.len() ==> white_space(#[trigger] s[i]),
        count > 0 ==> !white_space(s[count - 1]),
    decreases s.len(),
{
    if s.len() > 0 && white_space(s.last()) {
        let front = s.drop_last();
        let count = lemma_trimmed_end(front);
        assert(front.take(count) =~= s.take(count));
        assert forall|i: int| count <= i < s.len() implies white_space(#[trigger] s[i]) by {
            if i < front.len() {
                assert(front[i] == s[i]);
            }
        }
        count
    } else {
        assert(s.take(s.len() as int) =~= s);
        s.len() as int
    }
}

/// A text that starts and ends with characters that stay is trimmed.
pub proof fn lemma_trimmed_already(s: Seq<char>)
    requires
        s.len() > 0,
        !white_space(s[0]),
        !white_space(s.last()),
    ensures
        trimmed(s) == s,
{
}

/// The scan of a text that goes on from a state.
spec fn scan_on(state: ScanState, s: Seq<char>, i: int) -> ScanState
    decreases i,
{
    if i <= 0 {
        state
    } else {
        scan_step(scan_on(state, s, i - 1), s[i - 1])
    }
}

/// The state in which a scan starts.
spec fn fresh() -> ScanState {
    ScanState { depth: 0, in_string: false, escape: false }
}

proof fn lemma_scan_on_start(s: Seq<char>, i: int)
    ensures
        scan_on(fresh(), s, i) == scan_at(s, i),
    decreases i,
{
    if i > 0 {
        lemma_scan_on_start(s, i - 1);
    }
}

proof fn lemma_scan_prefix(front: Seq<char>, back: Seq<char>, i: int)
    requires
        0 <= i <= front.len(),
    ensures
        scan_at(front + back, i) == scan_at(front, i),
    decreases i,
{
    if i > 0 {
        lemma_scan_prefix(front, back, i - 1);
        assert((front + back)[i - 1] == front[i - 1]);
    }
}

proof fn lemma_scan_goes_on(front: Seq<char>, back: Seq<char>, i: int)
    requires
        0 <= i <= back.len(),
    ensures
        scan_at(front + back, front.len() + i) == scan_on(
            scan_at(front, front.len() as int),
            back,
            i,
        ),
    decreases i,
{
    if i == 0 {
        lemma_scan_prefix(front, back, front.len() as int);
    } else {
        lemma_scan_goes_on(front, back, i - 1);
        assert((front + back)[front.len() + i - 1] == back[i - 1]);
    }
}

proof fn lemma_scan_on_joins(state: ScanState, front: Seq<char>, back: Seq<char>, i: int)
    requires
        0 <= i <= front.len() + back.len(),
    ensures
        i <= front.len() ==> scan_on(state, front + back, i) == scan_on(state, front, i),
        i >= front.len() ==> scan_on(state, front + back, i) == scan_on(
            scan_on(state, front, front.len() as int),
            back,
            i - front.len(),
        ),
    decreases i,
{
    if i > 0 {
        lemma_scan_on_joins(state, front, back, i - 1);
        if i <= front.len() {
            assert((front + back)[i - 1] == front[i - 1]);
        } else {
            assert((front + back)[i - 1] == back[i - 1 - front.len()]);
        }
    }
}

/// A scan leaves a text as it came: outside strings, at the same depth, and it was nowhere above it.
pub open spec fn balanced(s: Seq<char>) -> bool {
    &&& scan_at(s, s.len() as int) == scan_at(s, 0)
    &&& forall|i: int| 0 <= i <= s.len() ==> (#[trigger] scan_at(s, i)).depth >= 0
}

/// A text without a separator outside strings and brackets.
pub open spec fn unseparated(s: Seq<char>, sep: char) -> bool {
    forall|i: int| 0 <= i < s.len() ==> !#[trigger] is_separator(s, sep, i)
}

proof fn lemma_part_start_prefix(front: Seq<char>, back: Seq<char>, sep: char, i: int)
    requires
        0 <= i <= front.len(),
    ensures
        part_start(front + back, sep, i) == part_start(front, sep, i),
        parts_before(front + back, sep, i) == parts_before(front, sep, i),
    decreases i,
{
    if i > 0 {
        lemma_part_start_prefix(front, back, sep, i - 1);
        lemma_scan_prefix(front, back, i - 1);
        lemma_part_start(front, sep, i - 1);
        assert((front + back)[i - 1] == front[i - 1]);
        assert((front + back).subrange(part_start(front, sep, i - 1), i - 1) =~= front.subrange(
            part_start(front, sep, i - 1),
            i - 1,
        ));
    }
}

proof fn lemma_last_part(front: Seq<char>, last: Seq<char>, sep: char, i: int)
    requires
        scan_at(front, front.len() as int) == fresh(),
        front.len() == 0 || is_separator(front + last, sep, front.len() - 1),
        unseparated(last, sep),
        0 <= i <= last.len(),
    ensures
        part_start(front + last, sep, front.len() + i) == front.len(),
        parts_before(front + last, sep, front.len() + i) == parts_before(
            front + last,
            sep,
            front.len() as int,
        ),
    decreases i,
{
    if i > 0 {
        lemma_last_part(front, last, sep, i - 1);
        lemma_scan_goes_on(front, last, i - 1);
        lemma_scan_on_start(last, i - 1);
        assert((front + last)[front.len() + i - 1] == last[i - 1]);
        assert(!is_separator(last, sep, i - 1));
    }
}

proof fn lemma_join_then_split(parts: Seq<Seq<char>>, sep: char)
    requires
        parts.len() > 0,
        sep == ',' || sep == ':',
        forall|k: int|
            0 <= k < parts.len() ==> balanced(#[trigger] parts[k]) && unseparated(parts[k], sep),
    ensures
        top_level_parts(joined(parts, sep), sep) == parts,
        scan_at(joined(parts, sep), joined(parts, sep).len() as int) == fresh(),
        forall|i: int|
            0 <= i <= joined(parts, sep).len() ==> (#[trigger] scan_at(joined(parts, sep), i)).depth
                >= 0,
    decreases parts.len(),
{
    let last = parts.last();
    assert(parts[parts.len() - 1] == last);
    assert(balanced(last) && unseparated(last, sep));
    if parts.len() == 1 {
        assert(Seq::<char>::empty() + last =~= last);
        lemma_last_part(Seq::empty(), last, sep, last.len() as int);
        assert(last.subrange(0, last.len() as int) =~= last);
        assert(top_level_parts(last, sep) =~= parts);
    } else {
        let front_parts = parts.drop_last();
        assert(forall|k: int| 0 <= k < front_parts.len() ==> front_parts[k] == parts[k]);
        lemma_join_then_split(front_parts, sep);
        let body = joined(front_parts, sep);
        let front = body.push(sep);
        let all = front + last;
        assert(front =~= body + seq![sep]);
        assert(all == joined(parts, sep));
        lemma_scan_goes_on(body, seq![sep], 1);
        assert(scan_on(fresh(), seq![sep], 0) == fresh());
        assert(scan_at(front, front.len() as int) == fresh());
        lemma_scan_prefix(body, seq![sep], body.len() as int);
        lemma_scan_prefix(front, last, body.len() as int);
        assert(all[body.len() as int] == sep);
        assert(is_separator(all, sep, front.len() - 1));
        lemma_part_start_prefix(body, seq![sep], sep, body.len() as int);
        lemma_part_start_prefix(front, last, sep, body.len() as int);
        lemma_part_start(body, sep, body.len() as int);
        lemma_last_part(front, last, sep, last.len() as int);
        let start = part_start(body, sep, body.len() as int);
        assert(all.subrange(start, body.len() as int) =~= body.subrange(start, body.len() as int));
        assert(parts_before(all, sep, front.len() as int) == top_level_parts(body, sep));
        assert(all.subrange(front.len() as int, all.len() as int) =~= last);
        assert(top_level_parts(all, sep) =~= parts);
        lemma_scan_goes_on(front, last, last.len() as int);
        lemma_scan_on_start(last, last.len() as int);
        assert forall|i: int| 0 <= i <= all.len() implies (#[trigger] scan_at(all, i)).depth >= 0 by {
            if i <= body.len() {
                lemma_scan_prefix(front, last, i);
                lemma_scan_prefix(body, seq![sep], i);
                assert(scan_at(body, i).depth >= 0);
            } else {
                lemma_scan_goes_on(front, last, i - front.len());
                lemma_scan_on_start(last, i - front.len());
                assert(scan_at(last, i - front.len()).depth >= 0);
            }
        }
    }
}

/// Putting texts together with a comma and splitting the text at its commas gives the texts back, if
/// none of them has a comma outside strings and brackets.
pub proof fn law_join_then_split(parts: Seq<Seq<char>>)
    requires
        parts.len() > 0,
        forall|k: int|
            0 <= k < parts.len() ==> balanced(#[trigger] parts[k]) && unseparated(parts[k], ','),
    ensures
        top_level_parts(joined(parts, ','), ',') == parts,
        balanced(joined(parts, ',')),
{
    lemma_join_then_split(parts, ',');
}

/// A text written as a string.
pub open spec fn quoted(s: Seq<char>) -> Seq<char> {
    seq!['"'] + escaped(s) + seq!['"']
}

proof fn lemma_scan_escaped(s: Seq<char>, i: int)
    requires
        0 <= i <= escaped(s).len(),
    ensures
        ({
            let inside = ScanState { depth: 0, in_string: true, escape: false };
            &&& scan_on(inside, escaped(s), i).in_string
            &&& scan_on(inside, escaped(s), i).depth == 0
            &&& scan_on(inside, escaped(s), escaped(s).len() as int) == inside
        }),
    decreases s.len(),
{
    if s.len() > 0 {
        let inside = ScanState { depth: 0, in_string: true, escape: false };
        let first = escape_of(s[0]);
        let rest = escaped(s.skip(1));
        reveal_with_fuel(scan_on, 3);
        assert(scan_on(inside, first, first.len() as int) == inside);
        lemma_scan_on_joins(inside, first, rest, i);
        lemma_scan_on_joins(inside, first, rest, (first.len() + rest.len()) as int);
        if i >= first.len() {
            lemma_scan_escaped(s.skip(1), i - first.len());
        } else {
            lemma_scan_escaped(s.skip(1), 0);
        }
    }
}

/// A string has no separators and no colons outside itself, and ends where it ends.
pub proof fn lemma_quoted(s: Seq<char>, sep: char)
    requires
        sep == ',' || sep == ':',
    ensures
        balanced(quoted(s)),
        unseparated(quoted(s), sep),
        forall|i: int| 0 <= i < quoted(s).len() ==> !#[trigger] is_plain(quoted(s), i),
{
    let inside = ScanState { depth: 0, in_string: true, escape: false };
    let open = seq!['"'];
    let body = escaped(s);
    let all = quoted(s);
    let front = open + body;
    assert(scan_at(open, 1) == inside) by {
        assert(scan_at(open, 0) == fresh());
    }
    assert forall|i: int| 0 <= i <= body.len() implies scan_at(all, 1 + i) == scan_on(
        inside,
        body,
        i,
    ) by {
        lemma_scan_goes_on(open, body, i);
        lemma_scan_prefix(front, seq!['"'], 1 + i);
    }
    lemma_scan_escaped(s, body.len() as int);
    let last = all.len() - 1;
    assert(all[last] == '"');
    assert(scan_at(all, 1 + body.len() as int) == inside);
    assert(scan_at(all, all.len() as int) == scan_step(inside, '"'));
    assert forall|i: int| 0 <= i <= all.len() implies (#[trigger] scan_at(all, i)).depth >= 0 by {
        if 1 <= i <= last {
            lemma_scan_escaped(s, i - 1);
            assert(scan_at(all, 1 + (i - 1)) == scan_on(inside, body, i - 1));
        }
    }
    assert forall|i: int| 0 <= i < all.len() implies !#[trigger] is_plain(all, i) by {
        if i == 0 {
            assert(all[0] == '"');
        } else {
            lemma_scan_escaped(s, i - 1);
            assert(scan_at(all, 1 + (i - 1)) == scan_on(inside, body, i - 1));
        }
    }
    assert forall|i: int| 0 <= i < all.len() implies !#[trigger] is_separator(all, sep, i) by {
        assert(!is_plain(all, i));
    }
}

proof fn lemma_texts_together(front: Seq<char>, back: Seq<char>, sep: char)
    requires
        balanced(front),
        balanced(back),
        unseparated(front, sep),
        unseparated(back, sep),
    ensures
        balanced(front + back),
        unseparated(front + back, sep),
{
    let all = front + back;
    lemma_scan_goes_on(front, back, back.len() as int);
    lemma_scan_on_start(back, back.len() as int);
    assert forall|i: int| 0 <= i <= all.len() implies (#[trigger] scan_at(all, i)).depth >= 0 by {
        if i <= front.len() {
            lemma_scan_prefix(front, back, i);
            assert(scan_at(front, i).depth >= 0);
        } else {
            lemma_scan_goes_on(front, back, i - front.len());
            lemma_scan_on_start(back, i - front.len());
            assert(scan_at(back, i - front.len()).depth >= 0);
        }
    }
    assert forall|i: int| 0 <= i < all.len() implies !#[trigger] is_separator(all, sep, i) by {
        if i < front.len() {
            lemma_scan_prefix(front, back, i);
            assert(!is_separator(front, sep, i));
        } else {
            lemma_scan_goes_on(front, back, i - front.len());
            lemma_scan_on_start(back, i - front.len());
            assert(!is_separator(back, sep, i - front.len()));
        }
    }
}

/// A member of an object, written as a string, a colon and a value.
pub open spec fn member_text(key: Seq<char>, value: Seq<char>) -> Seq<char> {
    quoted(key) + seq![':'] + value
}

proof fn lemma_colon_from(s: Seq<char>, i: int, at: int)
    requires
        0 <= i <= at < s.len(),
        forall|j: int| i <= j < at ==> !#[trigger] is_plain(s, j),
        is_plain(s, at),
        s[at] == ':',
    ensures
        colon_from(s, i) == Some(at),
    decreases at - i,
{
    if i < at {
        assert(!is_plain(s, i));
        lemma_colon_from(s, i + 1, at);
    }
}

/// A member has its first colon outside strings behind its key, whatever the key holds.
pub proof fn lemma_member_text(key: Seq<char>, value: Seq<char>)
    requires
        balanced(value),
        unseparated(value, ','),
    ensures
        balanced(member_text(key, value)),
        unseparated(member_text(key, value), ','),
        colon_from(member_text(key, value), 0) == Some(quoted(key).len() as int),
{
    let front = quoted(key);
    let colon = seq![':'];
    let all = member_text(key, value);
    lemma_quoted(key, ',');
    assert(scan_at(colon, 0) == fresh());
    assert(scan_at(colon, 1) == fresh());
    lemma_texts_together(front, colon, ',');
    lemma_texts_together(front + colon, value, ',');
    let at = front.len() as int;
    assert forall|j: int| 0 <= j < at implies !#[trigger] is_plain(all, j) by {
        lemma_scan_prefix(front, colon + value, j);
        assert(all =~= front + (colon + value));
        assert(!is_plain(front, j));
    }
    lemma_scan_prefix(front, colon + value, at);
    assert(all =~= front + (colon + value));
    assert(all[at] == ':');
    lemma_colon_from(all, 0, at);
}

/// A text in brackets has no separators outside them, and ends where it ends.
pub proof fn lemma_bracketed(open: char, body: Seq<char>, close: char)
    requires
        balanced(body),
        (open == '[' && close == ']') || (open == '{' && close == '}'),
    ensures
        balanced(seq![open] + body + seq![close]),
        unseparated(seq![open] + body + seq![close], ','),
{
    let first = seq![open];
    let front = first + body;
    let all = front + seq![close];
    assert(scan_at(first, 0) == fresh());
    let deeper = ScanState { depth: 1, in_string: false, escape: false };
    assert(scan_at(first, 1) == deeper);
    assert forall|i: int| 0 <= i <= body.len() implies (#[trigger] scan_at(all, 1 + i)).depth
        == scan_at(body, i).depth + 1 && scan_at(all, 1 + i).in_string == scan_at(body, i).in_string
        && scan_at(all, 1 + i).escape == scan_at(body, i).escape by {
        lemma_scan_goes_on(first, body, i);
        lemma_scan_prefix(front, seq![close], 1 + i);
        lemma_scan_deeper(body, i);
    }
    let last = 1 + body.len() as int;
    assert(all[last] == close);
    assert(scan_at(all, last) == deeper);
    assert(all.len() == last + 1);
    assert(scan_at(all, last + 1) == scan_step(scan_at(all, last), all[last]));
    assert(scan_at(all, all.len() as int) == fresh());
    assert forall|i: int| 0 <= i <= all.len() implies (#[trigger] scan_at(all, i)).depth >= 0 by {
        if 1 <= i <= last {
            assert(scan_at(body, i - 1).depth >= 0);
            assert(scan_at(all, 1 + (i - 1)).depth == scan_at(body, i - 1).depth + 1);
        }
    }
    assert forall|i: int| 0 <= i < all.len() implies !#[trigger] is_separator(all, ',', i) by {
        if i == 0 {
            assert(all[0] == open);
        } else if i < last {
            assert(scan_at(body, i - 1).depth >= 0);
            assert(scan_at(all, 1 + (i - 1)).depth == scan_at(body, i - 1).depth + 1);
        }
    }
}

proof fn lemma_scan_deeper(s: Seq<char>, i: int)
    ensures
        scan_on(ScanState { depth: 1, in_string: false, escape: false }, s, i) == (ScanState {
            depth: scan_at(s, i).depth + 1,
            ..scan_at(s, i)
        }),
    decreases i,
{
    if i > 0 {
        lemma_scan_deeper(s, i - 1);
    }
}

} // verus!
