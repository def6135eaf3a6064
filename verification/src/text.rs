//! Character level helpers on names and texts.
use vstd::prelude::*;

verus! {

/// The characters of a text, in order.
pub fn chars_of(text: &str) -> (chars: Vec<char>)
    ensures
        chars@ == text@,
{
    let mut chars: Vec<char> = Vec::new();
    for c in it: text.chars()
        invariant
            chars@ == it.seq().take(it.index()),
            it.seq() == text@,
    {
        chars.push(c);
    }
    chars
}

/// `String::push`: adds the character at the end.
#[verifier::external_body]
fn push_char(text: &mut String, c: char)
    ensures
        final(text)@ == old(text)@.push(c),
{
    text.push(c)
}

/// The text made of the given characters, in order.
pub fn string_of(chars: &[char]) -> (text: String)
    ensures
        text@ == chars@,
{
    let mut text = String::new();
    let mut i: usize = 0;
    while i < chars.len()
        invariant
            i <= chars.len(),
            text@ == chars@.take(i as int),
        decreases chars.len() - i,
    {
        push_char(&mut text, chars[i]);
        i += 1;
    }
    assert(chars@.take(chars@.len() as int) =~= chars@);
    text
}

/// Tells whether two texts hold the same characters.
pub fn same_text(left: &str, right: &str) -> (same: bool)
    ensures
        same == (left@ == right@),
{
    left.to_owned() == right.to_owned()
}

/// The characters of each name of a list.
pub open spec fn names_view(names: Seq<String>) -> Seq<Seq<char>> {
    names.map_values(|name: String| name@)
}

/// Copies a list of names.
pub fn clone_names(names: &[String]) -> (result: Vec<String>)
    ensures
        names_view(result@) == names_view(names@),
{
    let mut result: Vec<String> = Vec::new();
    let mut i: usize = 0;
    while i < names.len()
        invariant
            i <= names.len(),
            result.len() == i,
            forall|j: int| 0 <= j < i ==> (#[trigger] result@[j])@ == names@[j]@,
        decreases names.len() - i,
    {
        result.push(names[i].clone());
        i += 1;
    }
    assert(names_view(result@) =~= names_view(names@));
    result
}

/// The position at which a name first occurs in a list.
pub open spec fn first_position(names: Seq<Seq<char>>, name: Seq<char>) -> Option<int>
    decreases names.len(),
{
    if names.len() == 0 {
        None
    } else if first_position(names.drop_last(), name) is Some {
        first_position(names.drop_last(), name)
    } else if names.last() == name {
        Some(names.len() - 1)
    } else {
        None
    }
}

/// A first position holds the name, and no earlier position does; without one the name is
/// absent.
pub proof fn lemma_first_position(names: Seq<Seq<char>>, name: Seq<char>)
    ensures
        match first_position(names, name) {
            Some(at) => 0 <= at < names.len() && names[at] == name && (forall|j: int|
                0 <= j < at ==> names[j] != name),
            None => forall|j: int| 0 <= j < names.len() ==> names[j] != name,
        },
    decreases names.len(),
{
    if names.len() > 0 {
        lemma_first_position(names.drop_last(), name);
        assert forall|j: int| 0 <= j < names.len() - 1 implies names[j] == names.drop_last()[j] by {}
    }
}

/// Finds where a name first occurs in a list.
pub fn find_name(names: &[String], name: &str) -> (found: Option<usize>)
    ensures
        match first_position(names_view(names@), name@) {
            Some(at) => found == Some(at as usize) && 0 <= at < names.len(),
            None => found is None,
        },
{
    let mut i: usize = 0;
    while i < names.len()
        invariant
            i <= names.len(),
            first_position(names_view(names@).take(i as int), name@) is None,
        decreases names.len() - i,
    {
        let ghost views = names_view(names@);
        assert(views.take(i + 1).drop_last() =~= views.take(i as int));
        if same_text(names[i].as_str(), name) {
            proof {
                lemma_first_position(views, name@);
                lemma_first_position(views.take(i as int), name@);
                assert(views[i as int] == name@);
                assert forall|j: int| 0 <= j < i implies views[j] != name@ by {
                    assert(views.take(i as int)[j] == views[j]);
                }
            }
            return Some(i);
        }
        i += 1;
    }
    assert(names_view(names@).take(names@.len() as int) =~= names_view(names@));
    None
}

} // verus!
