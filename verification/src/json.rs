use vstd::prelude::*;
use crate::keys::{ascending, sorted_keys};
use crate::text::{joined, pair_views, text_views};

verus! {

/// The JSON string literal that stands for `text`: quoted and escaped.
pub uninterp spec fn json_string(text: Seq<char>) -> Seq<char>;

/// One member of a JSON object of strings: the name, a colon, the value.
pub open spec fn json_member(name: Seq<char>, value: Seq<char>) -> Seq<char> {
    json_string(name) + ":"@ + json_string(value)
}

/// The members that hold `values` under `names`, place by place.
pub open spec fn json_members(names: Seq<Seq<char>>, values: Seq<Seq<char>>) -> Seq<Seq<char>> {
    Seq::new(names.len(), |i: int| json_member(names[i], values[i]))
}

/// The JSON object that holds `values` under `names`, place by place: the
/// members in that order between braces, with a comma between neighbours.
pub open spec fn object_text(names: Seq<Seq<char>>, values: Seq<Seq<char>>) -> Seq<char> {
    "{"@ + joined(json_members(names, values), ","@) + "}"@
}

/// The values of `members` in the ascending order of their names.
pub open spec fn values_by_name(members: Map<Seq<char>, Seq<char>>) -> Seq<Seq<char>> {
    Seq::new(sorted_keys(members.dom()).len(), |i: int| members[sorted_keys(members.dom())[i]])
}

/// The JSON object of strings with the members `members`, written in the
/// ascending order of their names.
pub open spec fn json_object(members: Map<Seq<char>, Seq<char>>) -> Seq<char> {
    object_text(sorted_keys(members.dom()), values_by_name(members))
}

/// The map that holds `values` under `names`, place by place; of two values
/// under one name the later.
pub open spec fn zip_map(names: Seq<Seq<char>>, values: Seq<Seq<char>>) -> Map<Seq<char>, Seq<char>>
    decreases names.len(),
{
    if names.len() == 0 || values.len() != names.len() {
        Map::empty()
    } else {
        zip_map(names.drop_last(), values.drop_last()).insert(names.last(), values.last())
    }
}

/// The map that holds each second part of `pairs` under its first; of two
/// under one first part the later.
pub open spec fn pairs_map(pairs: Seq<(Seq<char>, Seq<char>)>) -> Map<Seq<char>, Seq<char>>
    decreases pairs.len(),
{
    if pairs.len() == 0 {
        Map::empty()
    } else {
        pairs_map(pairs.drop_last()).insert(pairs.last().0, pairs.last().1)
    }
}

/// The string literals of `items`, in order.
pub open spec fn json_strings(items: Seq<Seq<char>>) -> Seq<Seq<char>> {
    Seq::new(items.len(), |i: int| json_string(items[i]))
}

/// The JSON array of the strings `items`: their literals in order between
/// brackets, with a comma between neighbours.
pub open spec fn json_array(items: Seq<Seq<char>>) -> Seq<char> {
    "["@ + joined(json_strings(items), ","@) + "]"@
}

/// The members of the JSON object of strings that `text` holds; where `text`
/// is no such object, the message that says why.
pub uninterp spec fn json_object_parse(text: Seq<char>) -> Result<Map<Seq<char>, Seq<char>>, Seq<char>>;

/// The items of the JSON array of strings that `text` holds; where `text` is
/// no such array, the message that says why.
pub uninterp spec fn json_array_parse(text: Seq<char>) -> Result<Seq<Seq<char>>, Seq<char>>;

/// `serde_json::to_string` on a string slice. The crate documents failure only
/// for a value whose own serializer fails or that holds a map with keys that
/// are no strings; a string is neither, and the empty text stands for an
/// error that cannot come. The result is claimed to depend on the text alone.
#[verifier::external_body]
pub(crate) fn quote(text: &str) -> (quoted: String)
    ensures
        quoted@ == json_string(text@),
{
    match serde_json::to_string(text) {
        Ok(quoted) => quoted,
        Err(_) => String::new(),
    }
}

/// `serde_json::to_string` on an ordered map from string to string, filled
/// with `names` and `values` place by place. The names come in strictly
/// ascending order, so the map holds every pair and walks them in the order
/// given. The crate writes such a map in its compact form: an opening brace,
/// each member as the key's string literal, a colon and the value's string
/// literal, a comma before every member but the first, a closing brace. The
/// empty text stands for an error that the crate's documentation rules out
/// for such a map.
#[verifier::external_body]
pub(crate) fn write_object(names: &Vec<String>, values: &Vec<String>) -> (text: String)
    requires
        names.len() == values.len(),
        ascending(text_views(names@)),
    ensures
        text@ == object_text(text_views(names@), text_views(values@)),
{
    let members: std::collections::BTreeMap<&String, &String> =
        names.iter().zip(values.iter()).collect();
    match serde_json::to_string(&members) {
        Ok(text) => text,
        Err(_) => String::new(),
    }
}

/// `serde_json::to_string` on a vector of strings. The crate writes it in its
/// compact form: an opening bracket, each item as its string literal, a comma
/// before every item but the first, a closing bracket. The empty text stands
/// for an error that the crate's documentation rules out for such a vector.
#[verifier::external_body]
pub(crate) fn write_array(items: &Vec<String>) -> (text: String)
    ensures
        text@ == json_array(text_views(items@)),
{
    match serde_json::to_string(items) {
        Ok(text) => text,
        Err(_) => String::new(),
    }
}

/// `serde_json::from_str` into an ordered map from string to string, handed
/// out as its pairs of name and value, or the message of the error as its
/// `Display` writes it. Whether it succeeds, with what members or with what
/// message, is claimed to depend on the text alone.
#[verifier::external_body]
pub(crate) fn read_object(text: &str) -> (parsed: Result<Vec<(String, String)>, String>)
    ensures
        match parsed {
            Ok(members) => json_object_parse(text@) == Ok::<Map<Seq<char>, Seq<char>>, Seq<char>>(
                pairs_map(pair_views(members@)),
            ),
            Err(message) => json_object_parse(text@) == Err::<Map<Seq<char>, Seq<char>>, Seq<char>>(
                message@,
            ),
        },
{
    match serde_json::from_str::<std::collections::BTreeMap<String, String>>(text) {
        Ok(members) => Ok(members.into_iter().collect()),
        Err(error) => Err(error.to_string()),
    }
}

/// `serde_json::from_str` into a vector of strings, or the message of the
/// error as its `Display` writes it. Whether it succeeds, with what items or
/// with what message, is claimed to depend on the text alone.
#[verifier::external_body]
pub(crate) fn read_array(text: &str) -> (parsed: Result<Vec<String>, String>)
    ensures
        match parsed {
            Ok(items) => json_array_parse(text@) == Ok::<Seq<Seq<char>>, Seq<char>>(
                text_views(items@),
            ),
            Err(message) => json_array_parse(text@) == Err::<Seq<Seq<char>>, Seq<char>>(message@),
        },
{
    match serde_json::from_str::<Vec<String>>(text) {
        Ok(items) => Ok(items),
        Err(error) => Err(error.to_string()),
    }
}

} // verus!
