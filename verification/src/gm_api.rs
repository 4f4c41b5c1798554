//! The decisions of the `GM_xmlhttpRequest` bridge: which method a request
//! uses, how its body is to be read, and the response record handed back
//! to the script.
use vstd::prelude::*;
use crate::headers::{
    entry_index, insert_header, lemma_entry_index_bounds, lemma_table_insert, names_distinct,
    table_insert,
};
use crate::json::{opt_view, pairs_view};
use crate::text::{chars_eq, chars_of};

verus! {

/// What `GM_getValue` answers for a key.
pub enum GmValue<T> {
    /// The stored JSON text, to be read back as a value.
    Stored(String),
    /// The default the script gave.
    Given(T),
    /// JSON `null`: nothing stored and no default given.
    Null,
}

/// The answer to `GM_getValue`: the stored value when the key has one,
/// otherwise the script's default, otherwise `null`.
pub fn gm_storage_lookup<T>(stored: Option<String>, default_value: Option<T>) -> (r: GmValue<T>)
    ensures
        match stored {
            Some(v) => r == GmValue::<T>::Stored(v),
            None => match default_value {
                Some(d) => r == GmValue::<T>::Given(d),
                None => r is Null,
            },
        },
{
    match stored {
        Some(v) => GmValue::Stored(v),
        None => match default_value {
            Some(d) => GmValue::Given(d),
            None => GmValue::Null,
        },
    }
}

/// The HTTP methods the bridge sends.
#[derive(PartialEq, Eq, Structural, Clone, Copy, Debug)]
pub enum XhrMethod {
    Get,
    Post,
    Put,
    Delete,
    Patch,
    Head,
    Options,
}

/// What `str::to_uppercase` gives for a text (full Unicode case mapping).
pub uninterp spec fn upper_case_of(s: Seq<char>) -> Seq<char>;

/// `str::to_uppercase`. The result is named only (`upper_case_of`): it is
/// Unicode's full upper-case mapping, which the standard library's tables
/// define and this contract does not restate.
#[verifier::external_body]
pub(crate) fn to_upper(s: &str) -> (r: String)
    ensures
        r@ == upper_case_of(s@),
{
    s.to_uppercase()
}

/// The method a request names: its upper case compared with the methods
/// the bridge knows; no method, or one it does not know, means GET.
pub open spec fn method_of(method: Option<Seq<char>>) -> XhrMethod {
    match method {
        None => XhrMethod::Get,
        Some(m) => {
            let u = upper_case_of(m);
            if u == "POST"@ {
                XhrMethod::Post
            } else if u == "PUT"@ {
                XhrMethod::Put
            } else if u == "DELETE"@ {
                XhrMethod::Delete
            } else if u == "PATCH"@ {
                XhrMethod::Patch
            } else if u == "HEAD"@ {
                XhrMethod::Head
            } else if u == "OPTIONS"@ {
                XhrMethod::Options
            } else {
                XhrMethod::Get
            }
        },
    }
}

/// The method of a request (GET when none is given).
pub fn xhr_method(method: Option<String>) -> (r: XhrMethod)
    ensures
        r == method_of(opt_view(method)),
{
    match method {
        None => XhrMethod::Get,
        Some(m) => {
            let u = to_upper(m.as_str());
            let uc = chars_of(u.as_str());
            if chars_eq(&uc, &chars_of("POST")) {
                XhrMethod::Post
            } else if chars_eq(&uc, &chars_of("PUT")) {
                XhrMethod::Put
            } else if chars_eq(&uc, &chars_of("DELETE")) {
                XhrMethod::Delete
            } else if chars_eq(&uc, &chars_of("PATCH")) {
                XhrMethod::Patch
            } else if chars_eq(&uc, &chars_of("HEAD")) {
                XhrMethod::Head
            } else if chars_eq(&uc, &chars_of("OPTIONS")) {
                XhrMethod::Options
            } else {
                XhrMethod::Get
            }
        },
    }
}

/// Whether the response body is to be read as JSON: only when the response
/// type is `json`; none given means text.
pub fn wants_json(response_type: &Option<String>) -> (b: bool)
    ensures
        b == (opt_view(*response_type) == Some("json"@)),
{
    match response_type {
        None => {
            proof {
                reveal_strlit("json");
            }
            false
        },
        Some(t) => {
            let tc = chars_of(t.as_str());
            chars_eq(&tc, &chars_of("json"))
        },
    }
}

/// The reason phrase of a status code, as `http::StatusCode::canonical_reason`
/// gives it.
pub uninterp spec fn reason_of(status: u16) -> Option<Seq<char>>;

/// `reqwest::StatusCode::from_u16` followed by `canonical_reason`; the
/// phrase table is named (`reason_of`), not restated.
#[verifier::external_body]
pub(crate) fn canonical_reason(status: u16) -> (r: Option<String>)
    ensures
        opt_view(r) == reason_of(status),
{
    reqwest::StatusCode::from_u16(status).ok().and_then(|c| c.canonical_reason()).map(|s| s.to_string())
}

/// The response record handed back to the script.
pub struct XhrResponse {
    pub status: u16,
    pub status_text: String,
    pub response_text: String,
    pub response_headers: Vec<(String, String)>,
    pub final_url: String,
    pub ready_state: u8,
}

/// The response headers as the script sees them: those whose value is
/// text, a later one replacing an earlier one of the same name.
pub open spec fn response_header_table(raw: Seq<(Seq<char>, Option<Seq<char>>)>) -> Seq<(Seq<char>, Seq<char>)>
    decreases raw.len(),
{
    if raw.len() == 0 {
        Seq::empty()
    } else {
        match raw.last().1 {
            Some(v) => table_insert(response_header_table(raw.drop_last()), raw.last().0, v),
            None => response_header_table(raw.drop_last()),
        }
    }
}

/// The status text of a response: the reason phrase, or `Unknown`.
pub open spec fn status_text_of(status: u16) -> Seq<char> {
    match reason_of(status) {
        Some(t) => t,
        None => "Unknown"@,
    }
}

/// Builds the response record: status and its reason phrase (`Unknown`
/// when there is none), the body, the text-valued headers, the final URL,
/// and ready state 4.
pub fn xhr_response(
    status: u16,
    body: String,
    raw_headers: &Vec<(String, Option<String>)>,
    final_url: String,
) -> (r: XhrResponse)
    ensures
        r.status == status,
        r.status_text@ == status_text_of(status),
        r.response_text == body,
        pairs_view(r.response_headers@) == response_header_table(
            raw_headers@.map_values(|p: (String, Option<String>)| (p.0@, opt_view(p.1))),
        ),
        r.final_url == final_url,
        r.ready_state == 4,
        names_distinct(pairs_view(r.response_headers@)),
{
    let ghost raw = raw_headers@.map_values(|p: (String, Option<String>)| (p.0@, opt_view(p.1)));
    let mut table: Vec<(String, String)> = Vec::new();
    let mut i: usize = 0;
    while i < raw_headers.len()
        invariant
            i <= raw_headers@.len(),
            raw == raw_headers@.map_values(|p: (String, Option<String>)| (p.0@, opt_view(p.1))),
            pairs_view(table@) =~= response_header_table(raw.subrange(0, i as int)),
            names_distinct(pairs_view(table@)),
        decreases raw_headers.len() - i,
    {
        proof {
            assert(raw.subrange(0, i + 1).drop_last() =~= raw.subrange(0, i as int));
            assert(raw.subrange(0, i + 1).last() == (
                raw_headers@[i as int].0@,
                opt_view(raw_headers@[i as int].1),
            ));
        }
        match &raw_headers[i].1 {
            Some(v) => {
                proof {
                    lemma_table_insert(pairs_view(table@), raw_headers@[i as int].0@, v@);
                }
                insert_header(&mut table, raw_headers[i].0.clone(), v.clone());
            },
            None => {},
        }
        i = i + 1;
    }
    assert(raw.subrange(0, raw_headers@.len() as int) =~= raw);
    let status_text = match canonical_reason(status) {
        Some(t) => t,
        None => String::from_str("Unknown"),
    };
    XhrResponse {
        status,
        status_text,
        response_text: body,
        response_headers: table,
        final_url,
        ready_state: 4,
    }
}


/// The headers the script sees hold one entry for each upstream name that
/// has a text value, and no other: each entry comes from an upstream
/// header with that name and value, and no later upstream header of that
/// name has a text value (the last one wins).
pub proof fn lemma_response_headers_last_wins(raw: Seq<(Seq<char>, Option<Seq<char>>)>)
    ensures
        names_distinct(response_header_table(raw)),
        forall|k: int|
            0 <= k < response_header_table(raw).len() ==> exists|i: int|
                0 <= i < raw.len() && raw[i] == (
                    #[trigger] response_header_table(raw)[k].0,
                    Some(response_header_table(raw)[k].1),
                ) && forall|j: int|
                    i < j < raw.len() && (#[trigger] raw[j]).0 == response_header_table(raw)[k].0
                        ==> raw[j].1 is None,
        forall|i: int|
            0 <= i < raw.len() && (#[trigger] raw[i]).1 is Some ==> exists|k: int|
                0 <= k < response_header_table(raw).len() && (#[trigger] response_header_table(
                    raw,
                )[k]).0 == raw[i].0,
    decreases raw.len(),
{
    let t = response_header_table(raw);
    if raw.len() > 0 {
        let r0 = raw.drop_last();
        let t0 = response_header_table(r0);
        lemma_response_headers_last_wins(r0);
        let last = raw.last();
        let n = raw.len() - 1;
        assert forall|i: int| 0 <= i < n implies raw[i] == #[trigger] r0[i] by {}
        match last.1 {
            None => {
                assert forall|k: int| 0 <= k < t.len() implies exists|i: int|
                    0 <= i < raw.len() && raw[i] == (#[trigger] t[k].0, Some(t[k].1)) && forall|j: int|
                        i < j < raw.len() && (#[trigger] raw[j]).0 == t[k].0 ==> raw[j].1 is None by {
                    let i = choose|i: int|
                        0 <= i < r0.len() && r0[i] == (#[trigger] t0[k].0, Some(t0[k].1)) && forall|j: int|
                            i < j < r0.len() && (#[trigger] r0[j]).0 == t0[k].0 ==> r0[j].1 is None;
                    assert(raw[i] == r0[i]);
                    assert forall|j: int| i < j < raw.len() && (#[trigger] raw[j]).0 == t[k].0 implies raw[j].1 is None by {
                        if j < n {
                            assert(raw[j] == r0[j]);
                        }
                    }
                }
                assert forall|i: int| 0 <= i < raw.len() && (#[trigger] raw[i]).1 is Some implies exists|k: int|
                    0 <= k < t.len() && (#[trigger] t[k]).0 == raw[i].0 by {
                    assert(raw[i] == r0[i]);
                }
            },
            Some(v) => {
                lemma_table_insert(t0, last.0, v);
                lemma_entry_index_bounds(t0, last.0, 0);
                let e = entry_index(t0, last.0, 0);
                assert(t.contains((last.0, v)));
                assert forall|k: int| 0 <= k < t.len() implies exists|i: int|
                    0 <= i < raw.len() && raw[i] == (#[trigger] t[k].0, Some(t[k].1)) && forall|j: int|
                        i < j < raw.len() && (#[trigger] raw[j]).0 == t[k].0 ==> raw[j].1 is None by {
                    if t[k].0 == last.0 {
                        if e is Some {
                            assert(k == e->0 || t0[k].0 == last.0);
                            if k != e->0 {
                                assert(false);
                            }
                        } else {
                            if k < t0.len() {
                                assert(t0[k].0 == last.0);
                            }
                        }
                        assert(t[k] == (last.0, v));
                        assert(raw[n] == (t[k].0, Some(t[k].1)));
                    } else {
                        assert(k < t0.len() && t[k] == t0[k]);
                        let i = choose|i: int|
                            0 <= i < r0.len() && r0[i] == (#[trigger] t0[k].0, Some(t0[k].1))
                                && forall|j: int|
                                i < j < r0.len() && (#[trigger] r0[j]).0 == t0[k].0 ==> r0[j].1 is None;
                        assert(raw[i] == r0[i]);
                        assert forall|j: int| i < j < raw.len() && (#[trigger] raw[j]).0 == t[k].0 implies raw[j].1 is None by {
                            if j < n {
                                assert(raw[j] == r0[j]);
                            }
                        }
                    }
                }
                assert forall|i: int| 0 <= i < raw.len() && (#[trigger] raw[i]).1 is Some implies exists|k: int|
                    0 <= k < t.len() && (#[trigger] t[k]).0 == raw[i].0 by {
                    if raw[i].0 == last.0 {
                        let k = choose|k: int| 0 <= k < t.len() && t[k] == (last.0, v);
                        assert(t[k].0 == raw[i].0);
                    } else {
                        assert(raw[i] == r0[i]);
                        let k0 = choose|k: int| 0 <= k < t0.len() && (#[trigger] t0[k]).0 == r0[i].0;
                        lemma_entry_index_bounds(t0, raw[i].0, 0);
                        lemma_entry_index_bounds(t, raw[i].0, 0);
                        let k = entry_index(t, raw[i].0, 0)->0;
                        assert(t[k].0 == raw[i].0);
                    }
                }
            },
        }
    }
}

} // verus!
