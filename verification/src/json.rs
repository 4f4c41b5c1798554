//! The JSON texts the library produces and reads: lists of strings (a
//! script's patterns, grants and requires as stored) and objects of string
//! values (request headers). `serde_json` writes and reads them; the
//! contracts below say what it writes, as its serializer's source shows.
use vstd::prelude::*;
use crate::models::strings_view;
use crate::text::digit_char;

verus! {

/// Lower-case hexadecimal digit.
pub open spec fn hex_lower(d: nat) -> char {
    if d < 10 {
        digit_char(d)
    } else {
        (87 + d) as char
    }
}

/// How `serde_json` writes one character inside a string literal:
/// `"` and `\` and the control characters below U+0020 are escaped
/// (`\b \t \n \f \r` by name, the others as `\u00xx`), everything else is
/// written as it is.
pub open spec fn json_char(c: char) -> Seq<char> {
    let u = c as u32;
    if c == '"' {
        seq!['\\', '"']
    } else if c == '\\' {
        seq!['\\', '\\']
    } else if u == 8 {
        seq!['\\', 'b']
    } else if u == 9 {
        seq!['\\', 't']
    } else if u == 10 {
        seq!['\\', 'n']
    } else if u == 12 {
        seq!['\\', 'f']
    } else if u == 13 {
        seq!['\\', 'r']
    } else if u < 0x20 {
        seq!['\\', 'u', '0', '0', hex_lower((u / 16) as nat), hex_lower((u % 16) as nat)]
    } else {
        seq![c]
    }
}

/// The escaped contents of a JSON string literal.
pub open spec fn json_chars(s: Seq<char>) -> Seq<char>
    decreases s.len(),
{
    if s.len() == 0 {
        Seq::empty()
    } else {
        json_chars(s.drop_last()) + json_char(s.last())
    }
}

/// A JSON string literal.
pub open spec fn json_string(s: Seq<char>) -> Seq<char> {
    seq!['"'] + json_chars(s) + seq!['"']
}

/// The string literals of a list, separated by commas.
pub open spec fn json_items(items: Seq<Seq<char>>) -> Seq<char>
    decreases items.len(),
{
    if items.len() == 0 {
        Seq::empty()
    } else if items.len() == 1 {
        json_string(items[0])
    } else {
        json_items(items.drop_last()) + seq![','] + json_string(items.last())
    }
}

/// The compact JSON text of a list of strings, as `serde_json::to_string` writes it.
pub open spec fn json_array(items: Seq<Seq<char>>) -> Seq<char> {
    seq!['['] + json_items(items) + seq![']']
}

/// The `"key":"value"` members of an object, separated by commas.
pub open spec fn json_members(pairs: Seq<(Seq<char>, Seq<char>)>) -> Seq<char>
    decreases pairs.len(),
{
    if pairs.len() == 0 {
        Seq::empty()
    } else if pairs.len() == 1 {
        json_string(pairs[0].0) + seq![':'] + json_string(pairs[0].1)
    } else {
        json_members(pairs.drop_last()) + seq![','] + json_string(pairs.last().0) + seq![':']
            + json_string(pairs.last().1)
    }
}

/// The compact JSON text of an object whose members are written in the given order.
pub open spec fn json_object(pairs: Seq<(Seq<char>, Seq<char>)>) -> Seq<char> {
    seq!['{'] + json_members(pairs) + seq!['}']
}

/// The mathematical value of a list of string pairs.
pub open spec fn pairs_view(v: Seq<(String, String)>) -> Seq<(Seq<char>, Seq<char>)> {
    v.map_values(|p: (String, String)| (p.0@, p.1@))
}

/// `serde_json::to_string` on a `Vec<String>`.
///
/// The contract states the compact text that `serde_json`'s serializer
/// writes for a sequence of strings (its `format_escaped_str` table).
#[verifier::external_body]
pub(crate) fn json_of_strings(v: &Vec<String>) -> (r: String)
    ensures
        r@ == json_array(strings_view(v@)),
{
    serde_json::to_string(v).unwrap_or_default()
}

/// Serializes string pairs as one JSON object, in the order given, through
/// `serde_json::Serializer` and `serde::Serializer::collect_map`.
///
/// The contract states the compact text that `serde_json` writes for a map
/// of strings whose entries come in this order.
#[verifier::external_body]
pub(crate) fn json_of_pairs(v: &Vec<(String, String)>) -> (r: String)
    ensures
        r@ == json_object(pairs_view(v@)),
{
    let mut out: Vec<u8> = Vec::new();
    let mut ser = serde_json::Serializer::new(&mut out);
    let _ = serde::Serializer::collect_map(&mut ser, v.iter().map(|p| (&p.0, &p.1)));
    String::from_utf8(out).unwrap_or_default()
}

/// What `serde_json::from_str::<Vec<String>>` gives for a text: the strings
/// when the text is a JSON array of strings, `None` otherwise.
pub uninterp spec fn json_list_of(text: Seq<char>) -> Option<Seq<Seq<char>>>;

/// `serde_json::from_str::<Vec<String>>`, with failure as `None`.
///
/// The result is named (`json_list_of`); beside the name the contract states
/// one fact of the parser: a text that `serde_json` itself wrote for a list
/// of strings reads back as that list.
#[verifier::external_body]
pub(crate) fn parse_json_strings(text: &str) -> (r: Option<Vec<String>>)
    ensures
        r is None ==> json_list_of(text@) is None,
        r matches Some(v) ==> json_list_of(text@) == Some(strings_view(v@)),
        forall|items: Seq<Seq<char>>|
            #![trigger json_array(items)]
            text@ == json_array(items) ==> r is Some && strings_view(r.unwrap()@) == items,
{
    serde_json::from_str::<Vec<String>>(text).ok()
}

/// What `serde_json::from_str::<serde_json::Value>` gives for a text, seen
/// as an object: `None` unless the text is a JSON object; otherwise its
/// members in the order the parsed map holds them, each value given as its
/// text when it is a string and as `None` when it is not.
pub uninterp spec fn json_object_fields(text: Seq<char>) -> Option<
    Seq<(Seq<char>, Option<Seq<char>>)>,
>;

/// No key occurs twice among the pairs.
pub open spec fn keys_distinct(pairs: Seq<(Seq<char>, Seq<char>)>) -> bool {
    forall|i: int, j: int| 0 <= i < j < pairs.len() ==> pairs[i].0 != pairs[j].0
}

/// The pairs as object members whose values are strings.
pub open spec fn string_members(pairs: Seq<(Seq<char>, Seq<char>)>) -> Seq<(Seq<char>, Option<Seq<char>>)> {
    pairs.map_values(|p: (Seq<char>, Seq<char>)| (p.0, Some(p.1)))
}

/// The members `fs` of a parsed object are those of `pairs`, each key once,
/// in whatever order the parsed map holds them.
pub open spec fn members_are(fs: Seq<(Seq<char>, Option<Seq<char>>)>, pairs: Seq<(Seq<char>, Seq<char>)>) -> bool {
    &&& forall|i: int, j: int| 0 <= i < j < fs.len() ==> fs[i].0 != fs[j].0
    &&& forall|x: (Seq<char>, Option<Seq<char>>)| fs.contains(x) <==> string_members(pairs).contains(x)
}

/// The mathematical value of parsed object members.
pub open spec fn fields_view(v: Seq<(String, Option<String>)>) -> Seq<(Seq<char>, Option<Seq<char>>)> {
    v.map_values(|p: (String, Option<String>)| (p.0@, opt_view(p.1)))
}

/// Parses a text as a JSON value and, when it is an object, hands out its
/// members: the key, and the value's text when `Value::as_str` gives one.
///
/// Beside the name (`json_object_fields`) the contract states one fact of
/// the parser: the text `serde_json` writes for an object of strings with
/// distinct keys reads back as exactly those members, each key once.
#[verifier::external_body]
pub(crate) fn parse_json_object(text: &str) -> (r: Option<Vec<(String, Option<String>)>>)
    ensures
        r is None ==> json_object_fields(text@) is None,
        r matches Some(v) ==> json_object_fields(text@) == Some(fields_view(v@)),
        forall|pairs: Seq<(Seq<char>, Seq<char>)>|
            #![trigger json_object(pairs)]
            text@ == json_object(pairs) && keys_distinct(pairs) ==> r is Some && members_are(
                fields_view(r.unwrap()@),
                pairs,
            ),
{
    match serde_json::from_str::<serde_json::Value>(text) {
        Ok(serde_json::Value::Object(map)) => Some(
            map.into_iter().map(|(k, v)| (k, v.as_str().map(|s| s.to_string()))).collect(),
        ),
        _ => None,
    }
}

/// The mathematical value of an optional string.
pub open spec fn opt_view(o: Option<String>) -> Option<Seq<char>> {
    match o {
        Some(s) => Some(s@),
        None => None,
    }
}

} // verus!
