//! Parsing of a user script: the `// ==UserScript== ... // ==/UserScript==`
//! metadata header and the code after it.
//!
//! The header is found as the first `//`, white space, `==UserScript==`
//! opening marker, closed by the first `//`, white space, `==/UserScript==`
//! after it. Its contents, trimmed, are read line by line; a line holds an
//! entry where `//`, white space, `@`, a key of word characters and `-`,
//! white space and at least one more character occur. The key is taken
//! as it stands and the value is the rest of the line, trimmed. A script
//! without a header keeps all of its (trimmed) text as code and the default
//! metadata.
use vstd::prelude::*;
use crate::matcher::{regex_match, regex_outcome};
use crate::models::{
    ScriptModel, ScriptSpec, default_script, document_end, strings_view, default_name,
    default_version,
};
use crate::text::{
    back_ws, is_ws, chars_of, string_of, has_at, has_at_exec, skip_ws, skip_ws_exec, trim, trim_range,
    trim_range_exec, trim_chars, slice_chars, chars_eq, lines, split_lines, lemma_skip_ws_bounds,
};

verus! {

pub open spec fn slashes() -> Seq<char> {
    "//"@
}

pub open spec fn open_marker() -> Seq<char> {
    "==UserScript=="@
}

pub open spec fn close_marker() -> Seq<char> {
    "==/UserScript=="@
}

/// When `//`, optional white space and `marker` occur at `i`, the position
/// right after the marker.
pub open spec fn marker_end(s: Seq<char>, i: int, marker: Seq<char>) -> Option<int> {
    let m = skip_ws(s, i + slashes().len(), s.len() as int);
    if has_at(s, i, slashes()) && has_at(s, m, marker) {
        Some(m + marker.len())
    } else {
        None
    }
}

/// The first occurrence, at or after `i`, of `//`, white space and `marker`:
/// its start and its end.
pub open spec fn first_marker(s: Seq<char>, i: int, marker: Seq<char>) -> Option<(int, int)>
    decreases s.len() - i,
{
    if i < 0 || i >= s.len() {
        None
    } else {
        match marker_end(s, i, marker) {
            Some(e) => Some((i, e)),
            None => first_marker(s, i + 1, marker),
        }
    }
}

/// The metadata header of `s`: where its contents start and end, and where
/// the closing marker ends.
pub open spec fn header_span(s: Seq<char>) -> Option<(int, int, int)> {
    match first_marker(s, 0, open_marker()) {
        None => None,
        Some((_, lo)) => match first_marker(s, lo, close_marker()) {
            None => None,
            Some((hi, end)) => Some((lo, hi, end)),
        },
    }
}

/// The trimmed contents of the header; empty when there is none.
pub open spec fn header_block(s: Seq<char>) -> Seq<char> {
    match header_span(s) {
        None => Seq::empty(),
        Some((lo, hi, _)) => trim_range(s, lo, hi),
    }
}

/// The script's code: what follows the header, or the whole text when there
/// is no header, trimmed.
pub open spec fn script_code(s: Seq<char>) -> Seq<char> {
    match header_span(s) {
        None => trim(s),
        Some((_, _, end)) => trim_range(s, end, s.len() as int),
    }
}

/// A character that may stand in an entry's key: `-`, or what the regular
/// expression class `\w` accepts.
pub open spec fn is_key_char(c: char) -> bool {
    c == '-' || regex_outcome("\\w"@, seq![c]) == Some(true)
}

/// End of the run of key characters that starts at `i`.
pub open spec fn skip_key(l: Seq<char>, i: int) -> int
    decreases l.len() - i,
{
    if 0 <= i < l.len() && is_key_char(l[i]) {
        skip_key(l, i + 1)
    } else {
        i
    }
}

/// The entry (key and value) that starts at position `i` of line `l`, if one does.
pub open spec fn entry_at(l: Seq<char>, i: int) -> Option<(Seq<char>, Seq<char>)> {
    let j = skip_ws(l, i + slashes().len(), l.len() as int);
    let ks = j + 1;
    let ke = skip_key(l, ks);
    let w = skip_ws(l, ke, l.len() as int);
    if has_at(l, i, slashes()) && j < l.len() && l[j] == '@' && ke > ks && w > ke && (w < l.len()
        || w - ke >= 2) {
        Some((l.subrange(ks, ke), trim_range(l, ke, l.len() as int)))
    } else {
        None
    }
}

/// The first entry of line `l` that starts at or after `i`.
pub open spec fn entry_from(l: Seq<char>, i: int) -> Option<(Seq<char>, Seq<char>)>
    decreases l.len() - i,
{
    if i < 0 || i >= l.len() {
        None
    } else {
        match entry_at(l, i) {
            Some(e) => Some(e),
            None => entry_from(l, i + 1),
        }
    }
}

/// The entries of a list of lines, in order; a line holds at most one.
pub open spec fn entries(ls: Seq<Seq<char>>) -> Seq<(Seq<char>, Seq<char>)>
    decreases ls.len(),
{
    if ls.len() == 0 {
        Seq::empty()
    } else {
        match entry_from(ls.last(), 0) {
            Some(e) => entries(ls.drop_last()).push(e),
            None => entries(ls.drop_last()),
        }
    }
}

/// The values given for `key`, in order.
pub open spec fn values_of(es: Seq<(Seq<char>, Seq<char>)>, key: Seq<char>) -> Seq<Seq<char>>
    decreases es.len(),
{
    if es.len() == 0 {
        Seq::empty()
    } else if es.last().0 == key {
        values_of(es.drop_last(), key).push(es.last().1)
    } else {
        values_of(es.drop_last(), key)
    }
}

/// The first value given for `key`, or `dflt` when there is none.
pub open spec fn first_or(es: Seq<(Seq<char>, Seq<char>)>, key: Seq<char>, dflt: Seq<char>) -> Seq<
    char,
> {
    if values_of(es, key).len() > 0 {
        values_of(es, key)[0]
    } else {
        dflt
    }
}

/// The entries of the header of `s`.
pub open spec fn header_entries(s: Seq<char>) -> Seq<(Seq<char>, Seq<char>)> {
    entries(lines(header_block(s)))
}

/// The run-at stage named by an `@run-at` value.
pub open spec fn run_at_stage(v: Seq<char>) -> Seq<char> {
    let t = trim(v);
    if t == "document-start"@ {
        "document-start"@
    } else if t == "document-idle"@ {
        "document-idle"@
    } else {
        document_end()
    }
}

/// Every value of a list, trimmed.
pub open spec fn trim_all(v: Seq<Seq<char>>) -> Seq<Seq<char>> {
    v.map_values(|x: Seq<char>| trim(x))
}

/// The script that `parse_script` builds from text `s` whose code is not empty.
pub open spec fn parsed_script(s: Seq<char>) -> ScriptSpec {
    let es = header_entries(s);
    let d = default_script();
    ScriptSpec {
        id: Seq::empty(),
        name: first_or(es, "name"@, default_name()),
        namespace: first_or(es, "namespace"@, Seq::empty()),
        version: first_or(es, "version"@, default_version()),
        homepage: if values_of(es, "homepage"@).len() > 0 {
            values_of(es, "homepage"@)[0]
        } else {
            first_or(es, "homepageURL"@, Seq::empty())
        },
        icon: first_or(es, "icon"@, Seq::empty()),
        update_url: first_or(es, "updateURL"@, Seq::empty()),
        matches: values_of(es, "match"@),
        includes: values_of(es, "include"@),
        excludes: values_of(es, "exclude"@),
        run_at: if values_of(es, "run-at"@).len() > 0 {
            run_at_stage(values_of(es, "run-at"@)[0])
        } else {
            d.run_at
        },
        requires: values_of(es, "require"@),
        grants: trim_all(values_of(es, "grant"@)),
        code: script_code(s),
        enabled: true,
    }
}

/// The error text for a script without code.
pub open spec fn empty_code_error() -> Seq<char> {
    "脚本代码体为空"@
}

proof fn lemma_marker_end_bounds(s: Seq<char>, i: int, marker: Seq<char>)
    requires
        0 <= i,
    ensures
        marker_end(s, i, marker) matches Some(e) ==> i < e <= s.len(),
{
    reveal_strlit("//");
    if has_at(s, i, slashes()) {
        lemma_skip_ws_bounds(s, i + 2, s.len() as int);
    }
}

pub(crate) proof fn lemma_first_marker_bounds(s: Seq<char>, i: int, marker: Seq<char>)
    requires
        0 <= i,
    ensures
        first_marker(s, i, marker) matches Some((a, e)) ==> i <= a < e <= s.len(),
    decreases s.len() - i,
{
    if 0 <= i < s.len() {
        lemma_marker_end_bounds(s, i, marker);
        if marker_end(s, i, marker) is None {
            lemma_first_marker_bounds(s, i + 1, marker);
        }
    }
}

/// Where `//`, white space and `marker` at `i` end, if they occur there.
fn marker_end_exec(s: &Vec<char>, i: usize, marker: &Vec<char>, sl: &Vec<char>) -> (r: Option<
    usize,
>)
    requires
        i <= s@.len(),
        sl@ == slashes(),
    ensures
        r matches Some(e) ==> marker_end(s@, i as int, marker@) == Some(e as int),
        r is None ==> marker_end(s@, i as int, marker@) is None,
{
    if !has_at_exec(s, i, sl) {
        return None;
    }
    let n = s.len();
    let m = skip_ws_exec(s, i + sl.len(), n);
    if has_at_exec(s, m, marker) {
        Some(m + marker.len())
    } else {
        None
    }
}

/// The first occurrence, at or after `from`, of `//`, white space and `marker`.
fn first_marker_exec(s: &Vec<char>, from: usize, marker: &Vec<char>, sl: &Vec<char>) -> (r: Option<
    (usize, usize),
>)
    requires
        from <= s@.len(),
        sl@ == slashes(),
    ensures
        r matches Some((a, e)) ==> first_marker(s@, from as int, marker@) == Some(
            (a as int, e as int),
        ),
        r is None ==> first_marker(s@, from as int, marker@) is None,
{
    let mut i = from;
    while i < s.len()
        invariant
            from <= i <= s@.len(),
            sl@ == slashes(),
            first_marker(s@, from as int, marker@) == first_marker(s@, i as int, marker@),
        decreases s.len() - i,
    {
        match marker_end_exec(s, i, marker, sl) {
            Some(e) => {
                return Some((i, e));
            },
            None => {},
        }
        i = i + 1;
    }
    None
}

/// The header of the text: start and end of its contents, and end of the
/// closing marker.
fn find_header(s: &Vec<char>) -> (r: Option<(usize, usize, usize)>)
    ensures
        r matches Some((lo, hi, end)) ==> header_span(s@) == Some((lo as int, hi as int, end as int))
            && lo <= hi <= end <= s@.len(),
        r is None ==> header_span(s@) is None,
{
    let sl = chars_of("//");
    let open = chars_of("==UserScript==");
    let close = chars_of("==/UserScript==");
    match first_marker_exec(s, 0, &open, &sl) {
        None => None,
        Some((_, lo)) => {
            proof {
                lemma_first_marker_bounds(s@, 0, open@);
            }
            match first_marker_exec(s, lo, &close, &sl) {
                None => None,
                Some((hi, end)) => {
                    proof {
                        lemma_first_marker_bounds(s@, lo as int, close@);
                    }
                    Some((lo, hi, end))
                },
            }
        },
    }
}

/// Whether `c` may stand in an entry's key.
fn key_char(c: char) -> (b: bool)
    ensures
        b == is_key_char(c),
{
    if c == '-' {
        return true;
    }
    let mut one: Vec<char> = Vec::new();
    one.push(c);
    let hay = string_of(&one);
    assert(one@ =~= seq![c]);
    let r = regex_match("\\w", hay.as_str());
    match r {
        Some(b) => b,
        None => false,
    }
}

fn skip_key_exec(l: &Vec<char>, i: usize) -> (r: usize)
    requires
        i <= l@.len(),
    ensures
        r == skip_key(l@, i as int),
        i <= r <= l@.len(),
{
    let mut k = i;
    while k < l.len() && key_char(l[k])
        invariant
            i <= k <= l@.len(),
            skip_key(l@, k as int) == skip_key(l@, i as int),
        decreases l.len() - k,
    {
        k = k + 1;
    }
    k
}

/// The entry that starts at position `i` of the line, if one does.
fn entry_at_exec(l: &Vec<char>, i: usize, sl: &Vec<char>) -> (r: Option<(Vec<char>, Vec<char>)>)
    requires
        i < l@.len(),
        sl@ == slashes(),
    ensures
        r matches Some(e) ==> entry_at(l@, i as int) == Some((e.0@, e.1@)),
        r is None ==> entry_at(l@, i as int) is None,
{
    proof {
        reveal_strlit("//");
    }
    if !has_at_exec(l, i, sl) {
        return None;
    }
    let n = l.len();
    let j = skip_ws_exec(l, i + sl.len(), n);
    if !(j < l.len() && l[j] == '@') {
        return None;
    }
    let ks = j + 1;
    let ke = skip_key_exec(l, ks);
    let w = skip_ws_exec(l, ke, l.len());
    if ke > ks && w > ke && (w < l.len() || w - ke >= 2) {
        let key = slice_chars(l, ks, ke);
        let value = trim_range_exec(l, ke, l.len());
        Some((key, value))
    } else {
        None
    }
}

/// The entry held by a line, if any.
fn line_entry(l: &Vec<char>, sl: &Vec<char>) -> (r: Option<(Vec<char>, Vec<char>)>)
    requires
        sl@ == slashes(),
    ensures
        r matches Some(e) ==> entry_from(l@, 0) == Some((e.0@, e.1@)),
        r is None ==> entry_from(l@, 0) is None,
{
    let mut i: usize = 0;
    while i < l.len()
        invariant
            i <= l@.len(),
            sl@ == slashes(),
            entry_from(l@, 0) == entry_from(l@, i as int),
        decreases l.len() - i,
    {
        match entry_at_exec(l, i, sl) {
            Some(e) => {
                return Some(e);
            },
            None => {},
        }
        i = i + 1;
    }
    None
}

/// The mathematical value of a list of entries.
pub open spec fn entries_view(v: Seq<(Vec<char>, Vec<char>)>) -> Seq<(Seq<char>, Seq<char>)> {
    v.map_values(|e: (Vec<char>, Vec<char>)| (e.0@, e.1@))
}

/// The mathematical value of a list of character vectors.
pub open spec fn chars_view(v: Seq<Vec<char>>) -> Seq<Seq<char>> {
    v.map_values(|l: Vec<char>| l@)
}

/// The entries of the given lines, in order.
fn collect_entries(ls: &Vec<Vec<char>>) -> (r: Vec<(Vec<char>, Vec<char>)>)
    ensures
        entries_view(r@) =~= entries(chars_view(ls@)),
{
    let sl = chars_of("//");
    let mut out: Vec<(Vec<char>, Vec<char>)> = Vec::new();
    let mut i: usize = 0;
    while i < ls.len()
        invariant
            i <= ls@.len(),
            sl@ == slashes(),
            entries_view(out@) =~= entries(chars_view(ls@).subrange(0, i as int)),
        decreases ls.len() - i,
    {
        let ghost pre = chars_view(ls@).subrange(0, i as int);
        let ghost next = chars_view(ls@).subrange(0, i + 1);
        proof {
            assert(next.drop_last() =~= pre);
            assert(next.last() == ls@[i as int]@);
        }
        match line_entry(&ls[i], &sl) {
            Some(e) => {
                out.push(e);
            },
            None => {},
        }
        i = i + 1;
    }
    assert(chars_view(ls@).subrange(0, ls@.len() as int) =~= chars_view(ls@));
    out
}

/// The values given for `key`, in order.
fn values_exec(es: &Vec<(Vec<char>, Vec<char>)>, key: &Vec<char>) -> (r: Vec<Vec<char>>)
    ensures
        chars_view(r@) =~= values_of(entries_view(es@), key@),
{
    let mut out: Vec<Vec<char>> = Vec::new();
    let mut i: usize = 0;
    while i < es.len()
        invariant
            i <= es@.len(),
            chars_view(out@) =~= values_of(entries_view(es@).subrange(0, i as int), key@),
        decreases es.len() - i,
    {
        let ghost pre = entries_view(es@).subrange(0, i as int);
        let ghost next = entries_view(es@).subrange(0, i + 1);
        proof {
            assert(next.drop_last() =~= pre);
            assert(next.last() == (es@[i as int].0@, es@[i as int].1@));
        }
        if chars_eq(&es[i].0, key) {
            let v = slice_chars(&es[i].1, 0, es[i].1.len());
            proof {
                assert(values_of(next, key@) == values_of(pre, key@).push(es@[i as int].1@));
                assert(chars_view(out@.push(v)) =~= chars_view(out@).push(v@));
                assert(v@ =~= es@[i as int].1@);
            }
            out.push(v);
        } else {
            assert(values_of(next, key@) == values_of(pre, key@));
        }
        i = i + 1;
    }
    assert(entries_view(es@).subrange(0, es@.len() as int) =~= entries_view(es@));
    out
}

/// Strings holding the given character vectors.
fn strings_of(v: &Vec<Vec<char>>) -> (r: Vec<String>)
    ensures
        strings_view(r@) =~= chars_view(v@),
{
    let mut out: Vec<String> = Vec::new();
    let mut i: usize = 0;
    while i < v.len()
        invariant
            i <= v@.len(),
            strings_view(out@) =~= chars_view(v@).subrange(0, i as int),
        decreases v.len() - i,
    {
        proof {
            assert(chars_view(v@).subrange(0, i + 1) =~= chars_view(v@).subrange(0, i as int).push(
                v@[i as int]@,
            ));
        }
        out.push(string_of(&v[i]));
        i = i + 1;
    }
    out
}

/// The first value given for `key`, if any.
fn first_value(es: &Vec<(Vec<char>, Vec<char>)>, key: &str) -> (r: Option<Vec<char>>)
    ensures
        r matches Some(v) ==> values_of(entries_view(es@), key@).len() > 0 && v@ == values_of(
            entries_view(es@),
            key@,
        )[0],
        r is None ==> values_of(entries_view(es@), key@).len() == 0,
{
    let k = chars_of(key);
    let vs = values_exec(es, &k);
    if vs.len() > 0 {
        assert(chars_view(vs@)[0] == vs@[0]@);
        Some(slice_chars(&vs[0], 0, vs[0].len()))
    } else {
        None
    }
}

/// The first value given for `key`, or `dflt`.
fn first_or_exec(es: &Vec<(Vec<char>, Vec<char>)>, key: &str, dflt: &str) -> (r: String)
    ensures
        r@ == first_or(entries_view(es@), key@, dflt@),
{
    match first_value(es, key) {
        Some(v) => string_of(&v),
        None => String::from_str(dflt),
    }
}

/// All values given for `key`.
fn all_values(es: &Vec<(Vec<char>, Vec<char>)>, key: &str) -> (r: Vec<String>)
    ensures
        strings_view(r@) =~= values_of(entries_view(es@), key@),
{
    let k = chars_of(key);
    let vs = values_exec(es, &k);
    strings_of(&vs)
}

/// The run-at stage named by an `@run-at` value: `document-start` and
/// `document-idle` are kept, anything else (`document-body` among them)
/// becomes `document-end`.
pub fn normalize_run_at(run_at: &str) -> (r: String)
    ensures
        r@ == run_at_stage(run_at@),
{
    let v = chars_of(run_at);
    let t = trim_chars(&v);
    let start = chars_of("document-start");
    let idle = chars_of("document-idle");
    if chars_eq(&t, &start) {
        String::from_str("document-start")
    } else if chars_eq(&t, &idle) {
        String::from_str("document-idle")
    } else {
        String::from_str("document-end")
    }
}

/// Every grant, trimmed.
fn trimmed_grants(vs: Vec<String>) -> (r: Vec<String>)
    ensures
        strings_view(r@) =~= trim_all(strings_view(vs@)),
{
    let mut out: Vec<String> = Vec::new();
    let mut i: usize = 0;
    while i < vs.len()
        invariant
            i <= vs@.len(),
            strings_view(out@) =~= trim_all(strings_view(vs@)).subrange(0, i as int),
        decreases vs.len() - i,
    {
        let c = chars_of(vs[i].as_str());
        let t = trim_chars(&c);
        proof {
            assert(trim_all(strings_view(vs@)).subrange(0, i + 1) =~= trim_all(
                strings_view(vs@),
            ).subrange(0, i as int).push(trim(vs@[i as int]@)));
        }
        out.push(string_of(&t));
        i = i + 1;
    }
    out
}

/// Parses the entries of a header block into a key/value table.
pub fn parse_meta_block(block: &Vec<char>) -> (r: Vec<(Vec<char>, Vec<char>)>)
    ensures
        entries_view(r@) =~= entries(lines(block@)),
{
    let ls = split_lines(block);
    collect_entries(&ls)
}

/// Parses a user script into its metadata and code.
///
/// Fails exactly when the code (what follows the header, or the whole
/// text when there is no header) is empty once trimmed.
pub fn parse_script(raw_code: &str) -> (r: Result<ScriptModel, String>)
    ensures
        match r {
            Ok(s) => script_code(raw_code@).len() > 0 && s@ == parsed_script(raw_code@),
            Err(e) => script_code(raw_code@).len() == 0 && e@ == empty_code_error(),
        },
{
    let s = chars_of(raw_code);
    let hdr = find_header(&s);
    let (block, code) = match hdr {
        Some((lo, hi, end)) => (trim_range_exec(&s, lo, hi), trim_range_exec(&s, end, s.len())),
        None => (Vec::new(), trim_chars(&s)),
    };
    assert(block@ =~= header_block(s@));
    if code.len() == 0 {
        return Err(String::from_str("脚本代码体为空"));
    }
    let es = parse_meta_block(&block);
    let homepage = match first_value(&es, "homepage") {
        Some(v) => string_of(&v),
        None => first_or_exec(&es, "homepageURL", ""),
    };
    let run_at = match first_value(&es, "run-at") {
        Some(v) => {
            let vs = string_of(&v);
            normalize_run_at(vs.as_str())
        },
        None => String::from_str("document-end"),
    };
    let grants = trimmed_grants(all_values(&es, "grant"));
    let script = ScriptModel {
        id: String::new(),
        name: first_or_exec(&es, "name", "未命名脚本"),
        namespace: first_or_exec(&es, "namespace", ""),
        version: first_or_exec(&es, "version", "1.0"),
        homepage,
        icon: first_or_exec(&es, "icon", ""),
        update_url: first_or_exec(&es, "updateURL", ""),
        matches: all_values(&es, "match"),
        includes: all_values(&es, "include"),
        excludes: all_values(&es, "exclude"),
        run_at,
        requires: all_values(&es, "require"),
        grants,
        code: string_of(&code),
        enabled: true,
    };
    proof {
        assert(""@ =~= Seq::<char>::empty()) by {
            reveal_strlit("");
        }
    }
    Ok(script)
}

} // verus!

verus! {

/// A script without a metadata header keeps its whole text, trimmed, as
/// code and gets the default metadata.
pub proof fn lemma_no_header_defaults(s: Seq<char>)
    requires
        header_span(s) is None,
    ensures
        parsed_script(s) == (ScriptSpec { code: trim(s), ..default_script() }),
{
    let es = header_entries(s);
    assert(header_block(s) =~= Seq::<char>::empty());
    assert(lines(Seq::<char>::empty()) =~= Seq::<Seq<char>>::empty());
    assert(es =~= Seq::<(Seq<char>, Seq<char>)>::empty());
    assert forall|k: Seq<char>| values_of(es, k) =~= Seq::<Seq<char>>::empty() by {}
    assert(trim_all(Seq::<Seq<char>>::empty()) =~= Seq::<Seq<char>>::empty());
    assert(values_of(es, "grant"@) =~= Seq::<Seq<char>>::empty());
    assert(parsed_script(s).grants =~= Seq::<Seq<char>>::empty());
}


proof fn lemma_values_of_filter(
    es: Seq<(Seq<char>, Seq<char>)>,
    key: Seq<char>,
    pred: spec_fn((Seq<char>, Seq<char>)) -> bool,
    snd: spec_fn((Seq<char>, Seq<char>)) -> Seq<char>,
)
    requires
        forall|e: (Seq<char>, Seq<char>)| #[trigger] pred(e) == (e.0 == key),
        forall|e: (Seq<char>, Seq<char>)| #[trigger] snd(e) == e.1,
    ensures
        values_of(es, key) == es.filter(pred).map_values(snd),
    decreases es.len(),
{
    reveal(Seq::filter);
    if es.len() == 0 {
        assert(es.filter(pred).map_values(snd) =~= Seq::<Seq<char>>::empty());
    } else {
        lemma_values_of_filter(es.drop_last(), key, pred, snd);
        let f = es.drop_last().filter(pred);
        assert(es.filter(pred) == if pred(es.last()) { f.push(es.last()) } else { f });
        if es.last().0 == key {
            assert(f.push(es.last()).map_values(snd) =~= f.map_values(snd).push(es.last().1));
        }
    }
}

/// Every `@match`, `@include`, `@exclude` and `@require` entry of the
/// header gives its value to the script, in the order of the header and
/// with repeats kept; every `@grant` entry gives its value trimmed. The
/// single-valued fields take the value of the first entry of their key.
pub proof fn lemma_header_entries_fill_the_script(s: Seq<char>)
    ensures
        parsed_script(s).matches == header_entries(s).filter(
            |e: (Seq<char>, Seq<char>)| e.0 == "match"@,
        ).map_values(|e: (Seq<char>, Seq<char>)| e.1),
        parsed_script(s).includes == header_entries(s).filter(
            |e: (Seq<char>, Seq<char>)| e.0 == "include"@,
        ).map_values(|e: (Seq<char>, Seq<char>)| e.1),
        parsed_script(s).excludes == header_entries(s).filter(
            |e: (Seq<char>, Seq<char>)| e.0 == "exclude"@,
        ).map_values(|e: (Seq<char>, Seq<char>)| e.1),
        parsed_script(s).requires == header_entries(s).filter(
            |e: (Seq<char>, Seq<char>)| e.0 == "require"@,
        ).map_values(|e: (Seq<char>, Seq<char>)| e.1),
        parsed_script(s).grants == header_entries(s).filter(
            |e: (Seq<char>, Seq<char>)| e.0 == "grant"@,
        ).map_values(|e: (Seq<char>, Seq<char>)| trim(e.1)),
        header_entries(s).filter(|e: (Seq<char>, Seq<char>)| e.0 == "name"@).len() > 0
            ==> parsed_script(s).name == header_entries(s).filter(
            |e: (Seq<char>, Seq<char>)| e.0 == "name"@,
        )[0].1,
        header_entries(s).filter(|e: (Seq<char>, Seq<char>)| e.0 == "name"@).len() == 0
            ==> parsed_script(s).name == default_name(),
        header_entries(s).filter(|e: (Seq<char>, Seq<char>)| e.0 == "namespace"@).len() > 0
            ==> parsed_script(s).namespace == header_entries(s).filter(
            |e: (Seq<char>, Seq<char>)| e.0 == "namespace"@,
        )[0].1,
        header_entries(s).filter(|e: (Seq<char>, Seq<char>)| e.0 == "version"@).len() > 0
            ==> parsed_script(s).version == header_entries(s).filter(
            |e: (Seq<char>, Seq<char>)| e.0 == "version"@,
        )[0].1,
        parsed_script(s).code == script_code(s),
        parsed_script(s).enabled,
{
    let es = header_entries(s);
    lemma_values_of_filter(es, "match"@, |e: (Seq<char>, Seq<char>)| e.0 == "match"@, |e: (Seq<char>, Seq<char>)| e.1);
    lemma_values_of_filter(es, "include"@, |e: (Seq<char>, Seq<char>)| e.0 == "include"@, |e: (Seq<char>, Seq<char>)| e.1);
    lemma_values_of_filter(es, "exclude"@, |e: (Seq<char>, Seq<char>)| e.0 == "exclude"@, |e: (Seq<char>, Seq<char>)| e.1);
    lemma_values_of_filter(es, "require"@, |e: (Seq<char>, Seq<char>)| e.0 == "require"@, |e: (Seq<char>, Seq<char>)| e.1);
    lemma_values_of_filter(es, "grant"@, |e: (Seq<char>, Seq<char>)| e.0 == "grant"@, |e: (Seq<char>, Seq<char>)| e.1);
    lemma_values_of_filter(es, "name"@, |e: (Seq<char>, Seq<char>)| e.0 == "name"@, |e: (Seq<char>, Seq<char>)| e.1);
    lemma_values_of_filter(es, "namespace"@, |e: (Seq<char>, Seq<char>)| e.0 == "namespace"@, |e: (Seq<char>, Seq<char>)| e.1);
    lemma_values_of_filter(es, "version"@, |e: (Seq<char>, Seq<char>)| e.0 == "version"@, |e: (Seq<char>, Seq<char>)| e.1);
    let g = es.filter(|e: (Seq<char>, Seq<char>)| e.0 == "grant"@);
    assert(trim_all(g.map_values(|e: (Seq<char>, Seq<char>)| e.1)) =~= g.map_values(
        |e: (Seq<char>, Seq<char>)| trim(e.1),
    ));
}


proof fn lemma_trim_stage(t: Seq<char>)
    requires
        t.len() > 0,
        !is_ws(t[0]),
        !is_ws(t[t.len() - 1]),
    ensures
        trim(t) == t,
{
    assert(skip_ws(t, 0, t.len() as int) == 0);
    assert(back_ws(t, 0, t.len() as int) == t.len());
    assert(t.subrange(0, t.len() as int) =~= t);
}

/// The run-at stage is always one of `document-start`, `document-idle`
/// and `document-end`; a stage name, with white space around it or not,
/// is kept, and normalizing a stage again changes nothing.
pub proof fn lemma_run_at_stages(v: Seq<char>)
    ensures
        run_at_stage(v) == "document-start"@ || run_at_stage(v) == "document-idle"@ || run_at_stage(v)
            == "document-end"@,
        trim(v) == "document-start"@ ==> run_at_stage(v) == "document-start"@,
        trim(v) == "document-idle"@ ==> run_at_stage(v) == "document-idle"@,
        trim(v) == "document-end"@ ==> run_at_stage(v) == "document-end"@,
        run_at_stage(run_at_stage(v)) == run_at_stage(v),
{
    reveal_strlit("document-start");
    reveal_strlit("document-idle");
    reveal_strlit("document-end");
    lemma_trim_stage("document-start"@);
    lemma_trim_stage("document-idle"@);
    lemma_trim_stage("document-end"@);
    assert("document-end"@ != "document-start"@ && "document-end"@ != "document-idle"@) by {
        assert("document-end"@.len() != "document-start"@.len());
        assert("document-end"@[9] != "document-idle"@[9]);
    }
}

} // verus!
