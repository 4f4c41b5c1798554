//! HTTP header names and values, and header tables in which a later entry
//! for a name replaces an earlier one.
use vstd::prelude::*;
use crate::json::pairs_view;
use crate::text::{chars_eq, chars_of};
use reqwest::header::{HeaderMap, HeaderValue};

verus! {

/// Characters that `http::HeaderName::from_bytes` accepts in a name.
pub open spec fn is_token_char(c: char) -> bool {
    let u = c as u32;
    ||| u == 33
    ||| 35 <= u <= 39
    ||| u == 42
    ||| u == 43
    ||| u == 45
    ||| u == 46
    ||| 48 <= u <= 57
    ||| 65 <= u <= 90
    ||| 94 <= u <= 122
    ||| u == 124
    ||| u == 126
}

/// ASCII lower case of a character.
pub open spec fn ascii_lower(c: char) -> char {
    if 65 <= (c as u32) <= 90 {
        ((c as u32) + 32) as char
    } else {
        c
    }
}

/// The normalized header name for a key: its lower case when the key is
/// 1 to 65535 token characters, `None` otherwise.
pub open spec fn header_name_of(k: Seq<char>) -> Option<Seq<char>> {
    if 1 <= k.len() <= 65535 && forall|i: int| 0 <= i < k.len() ==> is_token_char(#[trigger] k[i]) {
        Some(k.map_values(|c: char| ascii_lower(c)))
    } else {
        None
    }
}

/// Whether `http::HeaderValue::from_str` accepts a value: no control
/// character other than tab, and no DEL.
pub open spec fn header_value_ok(v: Seq<char>) -> bool {
    forall|i: int|
        0 <= i < v.len() ==> ((#[trigger] v[i] as u32) >= 32 && (v[i] as u32) != 127) || (v[i] as u32)
            == 9
}

/// `reqwest::header::HeaderName::from_bytes` on the key's bytes, then
/// `HeaderName::as_str`. As the `http` crate's table shows, a name is 1 to
/// 65535 bytes of token characters, stored in lower case.
#[verifier::external_body]
pub(crate) fn header_name(k: &str) -> (r: Option<String>)
    ensures
        r matches Some(n) ==> header_name_of(k@) == Some(n@),
        r is None ==> header_name_of(k@) is None,
{
    reqwest::header::HeaderName::from_bytes(k.as_bytes()).ok().map(|n| n.as_str().to_string())
}

/// Whether `reqwest::header::HeaderValue::from_str` accepts the value: every
/// byte is at least 32 and not 127, or is a tab.
#[verifier::external_body]
pub(crate) fn header_value_accepted(v: &str) -> (r: bool)
    ensures
        r == header_value_ok(v@),
{
    reqwest::header::HeaderValue::from_str(v).is_ok()
}

#[verifier::external_type_specification]
#[verifier::external_body]
pub struct ExHeaderValue(reqwest::header::HeaderValue);

#[verifier::external_type_specification]
#[verifier::external_body]
#[verifier::reject_recursive_types(T)]
pub struct ExHeaderMap<T>(reqwest::header::HeaderMap<T>);

/// The headers a `reqwest::header::HeaderMap` holds: each name with the text
/// of its value. Its names are the map's keys, one entry of the map's table
/// each. The library only ever sets a name with `insert`, which leaves one
/// value per name.
pub uninterp spec fn header_map_view(m: HeaderMap<HeaderValue>) -> Map<Seq<char>, Seq<char>>;

/// The empty header map.
pub open spec fn no_headers() -> Map<Seq<char>, Seq<char>> {
    Map::empty()
}

/// `reqwest::header::HeaderMap::new`: a map without headers.
#[verifier::external_body]
pub(crate) fn header_map_new() -> (r: HeaderMap<HeaderValue>)
    ensures
        header_map_view(r) == no_headers(),
{
    reqwest::header::HeaderMap::new()
}

/// Fewer names than this in a header map leave room for one more: `insert`
/// then cannot fail.
pub const HEADER_MAP_LIMIT: usize = 4096;

/// `reqwest::header::HeaderMap::insert` of a normalized name and an accepted
/// value: the name is set to the value, any value it had is removed.
///
/// `insert` panics when the map's table cannot grow: growing is refused past
/// 2^15 slots, which the table never exceeds. It grows from `n` entries
/// only when `n` is three quarters of its slots, or when 5 × `n` reaches
/// them after many collisions; with fewer than `HEADER_MAP_LIMIT` names
/// (so 5 × `n` < 2^15) neither asks for more than 2^15 slots, and the
/// call returns.
#[verifier::external_body]
pub(crate) fn header_map_insert(
    m: HeaderMap<HeaderValue>,
    name: &str,
    value: &str,
) -> (r: HeaderMap<HeaderValue>)
    requires
        header_name_of(name@) == Some(name@),
        header_value_ok(value@),
        header_map_view(m).dom().finite(),
        header_map_view(m).len() < HEADER_MAP_LIMIT,
    ensures
        header_map_view(r) == header_map_view(m).insert(name@, value@),
{
    let mut m = m;
    if let (Ok(n), Ok(v)) = (
        reqwest::header::HeaderName::from_bytes(name.as_bytes()),
        reqwest::header::HeaderValue::from_str(value),
    ) {
        m.insert(n, v);
    }
    m
}

/// Position of the entry for `name` at or after `i`.
pub open spec fn entry_index(t: Seq<(Seq<char>, Seq<char>)>, name: Seq<char>, i: int) -> Option<int>
    decreases t.len() - i,
{
    if i < 0 || i >= t.len() {
        None
    } else if t[i].0 == name {
        Some(i)
    } else {
        entry_index(t, name, i + 1)
    }
}

/// The table with `name` set to `value`: an entry for the name has its value
/// replaced where it stands; otherwise the entry is appended.
pub open spec fn table_insert(t: Seq<(Seq<char>, Seq<char>)>, name: Seq<char>, value: Seq<char>) -> Seq<(Seq<char>, Seq<char>)> {
    match entry_index(t, name, 0) {
        Some(i) => t.update(i, (name, value)),
        None => t.push((name, value)),
    }
}

/// No name occurs twice in the table.
pub open spec fn names_distinct(t: Seq<(Seq<char>, Seq<char>)>) -> bool {
    forall|i: int, j: int| 0 <= i < j < t.len() ==> t[i].0 != t[j].0
}

pub proof fn lemma_entry_index_bounds(t: Seq<(Seq<char>, Seq<char>)>, name: Seq<char>, i: int)
    requires
        0 <= i,
    ensures
        entry_index(t, name, i) matches Some(k) ==> i <= k < t.len() && t[k].0 == name,
        entry_index(t, name, i) is None ==> forall|k: int| i <= k < t.len() ==> t[k].0 != name,
    decreases t.len() - i,
{
    if 0 <= i < t.len() && t[i].0 != name {
        lemma_entry_index_bounds(t, name, i + 1);
    }
}

/// Inserting into a table keeps its names distinct.
proof fn lemma_insert_distinct(t: Seq<(Seq<char>, Seq<char>)>, name: Seq<char>, value: Seq<char>)
    requires
        names_distinct(t),
    ensures
        names_distinct(table_insert(t, name, value)),
{
    lemma_entry_index_bounds(t, name, 0);
}

/// Setting a name in a table keeps its names distinct, holds the new entry,
/// and leaves which other names are present unchanged.
pub proof fn lemma_table_insert(t: Seq<(Seq<char>, Seq<char>)>, name: Seq<char>, value: Seq<char>)
    requires
        names_distinct(t),
    ensures
        names_distinct(table_insert(t, name, value)),
        table_insert(t, name, value).contains((name, value)),
        forall|n: Seq<char>|
            n != name ==> (entry_index(t, n, 0) is Some <==> entry_index(table_insert(t, name, value), n, 0) is Some),
{
    lemma_insert_distinct(t, name, value);
    let t2 = table_insert(t, name, value);
    lemma_entry_index_bounds(t, name, 0);
    match entry_index(t, name, 0) {
        Some(i) => assert(t2[i] == (name, value)),
        None => assert(t2[t.len() as int] == (name, value)),
    }
    assert forall|n: Seq<char>| n != name implies (entry_index(t, n, 0) is Some <==> entry_index(t2, n, 0) is Some) by {
        lemma_entry_index_bounds(t, n, 0);
        lemma_entry_index_bounds(t2, n, 0);
        if entry_index(t, n, 0) is Some {
            let k = entry_index(t, n, 0)->0;
            assert(t2[k].0 == n);
        }
        if entry_index(t2, n, 0) is Some {
            let k = entry_index(t2, n, 0)->0;
            if k < t.len() {
                assert(t[k].0 == n);
            }
        }
    }
}

/// Sets `name` to `value` in the table.
pub fn insert_header(t: &mut Vec<(String, String)>, name: String, value: String)
    ensures
        pairs_view(final(t)@) =~= table_insert(pairs_view(old(t)@), name@, value@),
{
    let ghost tv = pairs_view(t@);
    let n = chars_of(name.as_str());
    let mut i: usize = 0;
    while i < t.len()
        invariant
            i <= t@.len(),
            tv == pairs_view(t@),
            t@ == old(t)@,
            n@ == name@,
            entry_index(tv, name@, 0) == entry_index(tv, name@, i as int),
        decreases t.len() - i,
    {
        let k = chars_of(t[i].0.as_str());
        assert(tv[i as int].0 == t@[i as int].0@);
        if chars_eq(&k, &n) {
            proof {
                assert(pairs_view(t@.update(i as int, (name, value))) =~= tv.update(
                    i as int,
                    (name@, value@),
                ));
            }
            assert(entry_index(tv, name@, i as int) == Some(i as int));
            t.set(i, (name, value));
            return;
        }
        i = i + 1;
    }
    proof {
        assert(pairs_view(t@.push((name, value))) =~= tv.push((name@, value@)));
    }
    t.push((name, value));
}

} // verus!
