//! The local stream proxy: the URLs that route a stream through it, the
//! reading of a proxied request, and the lazily started server.
//!
//! A proxied URL is `<base>/proxy?url=<target>&headers=<json>`, both
//! parameters percent-encoded; `<json>` is an object of header names and
//! values to send with the upstream request.
use vstd::prelude::*;
use vstd::utf8::encode_utf8;
use crate::headers::{
    header_name, header_name_of, header_value_accepted, header_value_ok, header_map_new,
    header_map_insert, header_map_view, HEADER_MAP_LIMIT,
};
use crate::json::{
    json_object, json_object_fields, json_of_pairs, pairs_view, parse_json_object, opt_view,
    keys_distinct, string_members, members_are, fields_view,
};
use reqwest::header::{HeaderMap, HeaderValue};
use crate::text::{chars_of, decimal, has_at_exec, push_decimal, slice_chars, string_of};
use crate::url_codec::{url_decode, url_decoded, url_encode, url_encoded};

verus! {

/// The running proxy server, known by the local port it listens on.
pub struct StreamProxyServer {
    port: u16,
}

/// The base URL of a proxy listening on `port`.
pub open spec fn base_url_of(port: u16) -> Seq<char> {
    "http://127.0.0.1:"@ + decimal(port as nat)
}

impl StreamProxyServer {
    /// The server that listens on `port`.
    pub fn new(port: u16) -> (r: Self)
        ensures
            r.port_spec() == port,
    {
        StreamProxyServer { port }
    }

    pub closed spec fn port_spec(&self) -> u16 {
        self.port
    }

    /// The port the server listens on.
    pub fn port(&self) -> (r: u16)
        ensures
            r == self.port_spec(),
    {
        self.port
    }

    /// `http://127.0.0.1:<port>`.
    pub fn base_url(&self) -> (r: String)
        ensures
            r@ == base_url_of(self.port_spec()),
    {
        let mut out = chars_of("http://127.0.0.1:");
        push_decimal(self.port as u128, &mut out);
        string_of(&out)
    }
}

/// The base URL of the proxy, starting it first when `slot` holds none.
///
/// When a server is held, its base URL is returned and `start` is not run.
/// Otherwise `start` runs once: the server it gives is kept in `slot` and
/// its base URL returned; its error is returned as it is, `slot` left empty.
pub fn ensure_proxy_server<F: FnOnce() -> Result<StreamProxyServer, String>>(
    slot: &mut Option<StreamProxyServer>,
    start: F,
) -> (r: Result<String, String>)
    requires
        *old(slot) is None ==> start.requires(()),
    ensures
        match *old(slot) {
            Some(s) => *final(slot) == Some(s) && (r matches Ok(u) && u@ == base_url_of(s.port_spec())),
            None => exists|out: Result<StreamProxyServer, String>|
                start.ensures((), out) && match out {
                    Ok(s) => *final(slot) == Some(s) && (r matches Ok(u) && u@ == base_url_of(
                        s.port_spec(),
                    )),
                    Err(e) => *final(slot) is None && r == Err::<String, String>(e),
                },
        },
{
    match slot {
        Some(s) => Ok(s.base_url()),
        None => {
            let out = start();
            match out {
                Ok(s) => {
                    let u = s.base_url();
                    *slot = Some(s);
                    Ok(u)
                },
                Err(e) => Err(e),
            }
        },
    }
}

/// The proxied URL for `original_url`, with `headers` (in the order given)
/// to be sent upstream.
pub open spec fn proxy_url_of(
    base: Seq<char>,
    original_url: Seq<char>,
    headers: Seq<(Seq<char>, Seq<char>)>,
) -> Seq<char> {
    base + "/proxy?url="@ + url_encoded(original_url) + "&headers="@ + url_encoded(
        json_object(headers),
    )
}

/// Builds the proxied URL for a stream.
pub fn build_proxy_url(base: &str, original_url: &str, headers: &Vec<(String, String)>) -> (r: String)
    ensures
        r@ == proxy_url_of(base@, original_url@, pairs_view(headers@)),
{
    let encoded_url = url_encode(original_url);
    let headers_json = json_of_pairs(headers);
    let encoded_headers = url_encode(headers_json.as_str());
    let mut out = String::from_str(base);
    out.append("/proxy?url=");
    out.append(encoded_url.as_str());
    out.append("&headers=");
    out.append(encoded_headers.as_str());
    out
}

/// Index of the first `c` at or after `i`.
pub open spec fn find_char(s: Seq<char>, c: char, i: int) -> Option<int>
    decreases s.len() - i,
{
    if i < 0 || i >= s.len() {
        None
    } else if s[i] == c {
        Some(i)
    } else {
        find_char(s, c, i + 1)
    }
}

/// The query of a request target: the text after its first `?`, up to the
/// next `?` if there is one.
pub open spec fn query_of(u: Seq<char>) -> Option<Seq<char>> {
    match find_char(u, '?', 0) {
        None => None,
        Some(k) => Some(
            u.subrange(
                k + 1,
                match find_char(u, '?', k + 1) {
                    Some(k2) => k2,
                    None => u.len() as int,
                },
            ),
        ),
    }
}

/// The first `&`-separated field of `q`, at or after `start`, that begins
/// with `prefix`.
pub open spec fn param_from(q: Seq<char>, start: int, prefix: Seq<char>) -> Option<Seq<char>>
    decreases q.len() - start,
{
    if start < 0 || start > q.len() {
        None
    } else {
        let end = match find_char(q, '&', start) {
            Some(e) => e,
            None => q.len() as int,
        };
        let seg = q.subrange(start, end);
        if end < start || end > q.len() {
            None
        } else if seg.len() >= prefix.len() && seg.subrange(0, prefix.len() as int) == prefix {
            Some(seg)
        } else if end >= q.len() {
            None
        } else {
            param_from(q, end + 1, prefix)
        }
    }
}

proof fn lemma_param_from_prefix(q: Seq<char>, start: int, prefix: Seq<char>)
    ensures
        param_from(q, start, prefix) matches Some(seg) ==> seg.len() >= prefix.len(),
    decreases q.len() - start,
{
    if 0 <= start <= q.len() {
        let end = match find_char(q, '&', start) {
            Some(e) => e,
            None => q.len() as int,
        };
        if start <= end <= q.len() && end < q.len() {
            lemma_param_from_prefix(q, end + 1, prefix);
        }
    }
}

/// The field of the query that begins with `prefix`.
pub open spec fn param_of(u: Seq<char>, prefix: Seq<char>) -> Option<Seq<char>> {
    match query_of(u) {
        None => None,
        Some(q) => param_from(q, 0, prefix),
    }
}

pub open spec fn url_prefix() -> Seq<char> {
    "url="@
}

pub open spec fn headers_prefix() -> Seq<char> {
    "headers="@
}

pub open spec fn missing_url_message() -> Seq<char> {
    "缺少 url 参数"@
}

pub open spec fn bad_url_message() -> Seq<char> {
    "无法解码 URL 参数"@
}

pub open spec fn bad_headers_message() -> Seq<char> {
    "无法解码 headers 参数"@
}

pub open spec fn too_many_headers_message() -> Seq<char> {
    "headers 参数中的请求头过多"@
}

/// The decoded upstream URL of a request target, or the message of the
/// 400 answer.
pub open spec fn target_of(u: Seq<char>) -> Result<Seq<char>, Seq<char>> {
    match param_of(u, url_prefix()) {
        None => Err(missing_url_message()),
        Some(p) => match url_decoded(p.subrange(4, p.len() as int)) {
            None => Err(bad_url_message()),
            Some(d) => Ok(d),
        },
    }
}

/// The headers set from the members of a parsed JSON object, in order:
/// string members whose name and value are valid headers; a later member
/// replaces an earlier one of the same (lower-cased) name.
pub open spec fn header_fold(fields: Seq<(Seq<char>, Option<Seq<char>>)>) -> Map<Seq<char>, Seq<char>>
    decreases fields.len(),
{
    if fields.len() == 0 {
        Map::empty()
    } else {
        let acc = header_fold(fields.drop_last());
        let (k, v) = fields.last();
        match v {
            Some(val) => match header_name_of(k) {
                Some(n) => if header_value_ok(val) {
                    acc.insert(n, val)
                } else {
                    acc
                },
                None => acc,
            },
            None => acc,
        }
    }
}

/// The decoded text of the header field: what follows `headers=`.
pub open spec fn header_text(u: Seq<char>) -> Option<Seq<char>> {
    match param_of(u, headers_prefix()) {
        None => None,
        Some(p) => url_decoded(p.subrange(headers_prefix().len() as int, p.len() as int)),
    }
}

/// The headers a request asks for, or the message of the 400 answer. A
/// header text that is not a JSON object asks for no headers; an object
/// with more than `HEADER_MAP_LIMIT` members is refused.
pub open spec fn headers_of(u: Seq<char>) -> Result<Map<Seq<char>, Seq<char>>, Seq<char>> {
    match param_of(u, headers_prefix()) {
        None => Ok(Map::empty()),
        Some(_) => match header_text(u) {
            None => Err(bad_headers_message()),
            Some(text) => match json_object_fields(text) {
                Some(fs) => if fs.len() > HEADER_MAP_LIMIT {
                    Err(too_many_headers_message())
                } else {
                    Ok(header_fold(fs))
                },
                None => Ok(Map::empty()),
            },
        },
    }
}

/// The headers set from some members are finitely many, at most one per member.
proof fn lemma_fold_len(fields: Seq<(Seq<char>, Option<Seq<char>>)>)
    ensures
        header_fold(fields).dom().finite(),
        header_fold(fields).len() <= fields.len(),
    decreases fields.len(),
{
    if fields.len() > 0 {
        lemma_fold_len(fields.drop_last());
    }
}

/// Headers that a proxied URL can carry intact: every name is a valid
/// header name, no two are the same once lower-cased, and every value is
/// a valid header value.
pub open spec fn sendable(hs: Seq<(Seq<char>, Seq<char>)>) -> bool {
    &&& forall|i: int| 0 <= i < hs.len() ==> #[trigger] header_name_of(hs[i].0) is Some && header_value_ok(hs[i].1)
    &&& forall|i: int, j: int| 0 <= i < j < hs.len() ==> header_name_of(hs[i].0) != header_name_of(hs[j].0)
}

/// The headers sent for the given pairs: each lower-cased name with its value.
pub open spec fn sent_headers(hs: Seq<(Seq<char>, Seq<char>)>) -> Map<Seq<char>, Seq<char>> {
    header_fold(string_members(hs))
}

/// A proxied request: the upstream URL and the headers to send with it.
pub struct ProxyRequest {
    pub url: String,
    pub headers: HeaderMap<HeaderValue>,
}

/// An answer to a request that cannot be proxied.
pub struct ProxyError {
    pub status: u16,
    pub message: String,
}

/// What reading a request target gives.
pub open spec fn proxy_request_of(u: Seq<char>) -> Result<(Seq<char>, Map<Seq<char>, Seq<char>>), (u16, Seq<char>)> {
    match target_of(u) {
        Err(m) => Err((400u16, m)),
        Ok(t) => match headers_of(u) {
            Err(m) => Err((400u16, m)),
            Ok(h) => Ok((t, h)),
        },
    }
}

/// Index of the first `c` in `s` at or after `i`.
fn find_char_exec(s: &Vec<char>, c: char, i: usize) -> (r: Option<usize>)
    requires
        i <= s@.len(),
    ensures
        r matches Some(k) ==> find_char(s@, c, i as int) == Some(k as int) && i <= k < s@.len(),
        r is None ==> find_char(s@, c, i as int) is None,
{
    let mut k = i;
    while k < s.len()
        invariant
            i <= k <= s@.len(),
            find_char(s@, c, i as int) == find_char(s@, c, k as int),
        decreases s.len() - k,
    {
        if s[k] == c {
            return Some(k);
        }
        k = k + 1;
    }
    None
}

/// The query of the request target.
fn query_exec(u: &Vec<char>) -> (r: Option<Vec<char>>)
    ensures
        r matches Some(q) ==> query_of(u@) == Some(q@),
        r is None ==> query_of(u@) is None,
{
    let n = u.len();
    match find_char_exec(u, '?', 0) {
        None => None,
        Some(k) => {
            let end = match find_char_exec(u, '?', k + 1) {
                Some(k2) => k2,
                None => u.len(),
            };
            Some(slice_chars(u, k + 1, end))
        },
    }
}

/// The field of the query that begins with `prefix`.
fn param_exec(q: &Vec<char>, prefix: &Vec<char>) -> (r: Option<Vec<char>>)
    ensures
        r matches Some(p) ==> param_from(q@, 0, prefix@) == Some(p@),
        r is None ==> param_from(q@, 0, prefix@) is None,
{
    let mut start: usize = 0;
    while start <= q.len()
        invariant
            start <= q@.len() + 1,
            param_from(q@, 0, prefix@) == param_from(q@, start as int, prefix@),
        decreases q.len() + 1 - start,
    {
        let end = match find_char_exec(q, '&', start) {
            Some(e) => e,
            None => q.len(),
        };
        let seg = slice_chars(q, start, end);
        if seg.len() >= prefix.len() && has_at_exec(&seg, 0, prefix) {
            return Some(seg);
        }
        if end >= q.len() {
            return None;
        }
        start = end + 1;
    }
    None
}

/// The upstream URL of the request target, or the message of the answer.
fn read_target(u: &Vec<char>) -> (r: Result<String, String>)
    ensures
        match target_of(u@) {
            Ok(t) => r matches Ok(s) && s@ == t,
            Err(m) => r matches Err(e) && e@ == m,
        },
{
    let q = match query_exec(u) {
        None => {
            return Err(String::from_str("缺少 url 参数"));
        },
        Some(q) => q,
    };
    let up = chars_of("url=");
    match param_exec(&q, &up) {
        None => Err(String::from_str("缺少 url 参数")),
        Some(p) => {
            proof {
                reveal_strlit("url=");
                lemma_param_from_prefix(q@, 0, up@);
            }
            let rest = slice_chars(&p, 4, p.len());
            let rest_s = string_of(&rest);
            match url_decode(rest_s.as_str()) {
                None => Err(String::from_str("无法解码 URL 参数")),
                Some(d) => Ok(d),
            }
        },
    }
}

/// The headers set from the members of a parsed JSON object.
fn build_headers(fields: &Vec<(String, Option<String>)>) -> (r: HeaderMap<HeaderValue>)
    requires
        fields@.len() <= HEADER_MAP_LIMIT,
    ensures
        header_map_view(r) == header_fold(fields_view(fields@)),
{
    let ghost fs = fields_view(fields@);
    let mut out = header_map_new();
    let mut i: usize = 0;
    while i < fields.len()
        invariant
            i <= fields@.len(),
            fields@.len() <= HEADER_MAP_LIMIT,
            fs == fields_view(fields@),
            header_map_view(out) == header_fold(fs.subrange(0, i as int)),
        decreases fields.len() - i,
    {
        proof {
            assert(fs.subrange(0, i + 1).drop_last() =~= fs.subrange(0, i as int));
            assert(fs.subrange(0, i + 1).last() == (fields@[i as int].0@, opt_view(fields@[i as int].1)));
        }
        match &fields[i].1 {
            Some(val) => match header_name(fields[i].0.as_str()) {
                Some(n) => {
                    if header_value_accepted(val.as_str()) {
                        proof {
                            lemma_header_name_normal(fields@[i as int].0@);
                            lemma_fold_len(fs.subrange(0, i as int));
                        }
                        out = header_map_insert(out, n.as_str(), val.as_str());
                    }
                },
                None => {},
            },
            None => {},
        }
        i = i + 1;
    }
    assert(fs.subrange(0, fields@.len() as int) =~= fs);
    out
}

/// A normalized header name is its own normalization.
proof fn lemma_header_name_normal(k: Seq<char>)
    requires
        header_name_of(k) is Some,
    ensures
        header_name_of(header_name_of(k)->0) == header_name_of(k),
{
    let n = header_name_of(k)->0;
    assert forall|i: int| 0 <= i < n.len() implies crate::headers::is_token_char(#[trigger] n[i]) by {
        assert(crate::headers::is_token_char(k[i]));
    }
    assert(n.map_values(|c: char| crate::headers::ascii_lower(c)) =~= n);
}

/// The headers the request target asks for, or the message of the answer.
fn read_headers(u: &Vec<char>) -> (r: Result<HeaderMap<HeaderValue>, String>)
    ensures
        match headers_of(u@) {
            Ok(h) => r matches Ok(m) && header_map_view(m) == h,
            Err(m) => r matches Err(e) && e@ == m,
        },
        forall|hs: Seq<(Seq<char>, Seq<char>)>|
            #![trigger json_object(hs)]
            header_text(u@) == Some(json_object(hs)) && keys_distinct(hs) ==> (json_object_fields(
                json_object(hs),
            ) matches Some(fs) && members_are(fs, hs)),
{
    let q = match query_exec(u) {
        None => {
            return Ok(header_map_new());
        },
        Some(q) => q,
    };
    let hp = chars_of("headers=");
    match param_exec(&q, &hp) {
        None => Ok(header_map_new()),
        Some(p) => {
            proof {
                reveal_strlit("headers=");
                lemma_param_from_prefix(q@, 0, hp@);
            }
            let rest = slice_chars(&p, 8, p.len());
            let rest_s = string_of(&rest);
            match url_decode(rest_s.as_str()) {
                None => Err(String::from_str("无法解码 headers 参数")),
                Some(text) => match parse_json_object(text.as_str()) {
                    Some(fields) => if fields.len() > HEADER_MAP_LIMIT {
                        Err(String::from_str("headers 参数中的请求头过多"))
                    } else {
                        Ok(build_headers(&fields))
                    },
                    None => Ok(header_map_new()),
                },
            }
        },
    }
}

/// Reads a proxied request target (`/proxy?url=...&headers=...`): the
/// upstream URL and the headers to send, or the 400 answer when the URL
/// field is missing or either field does not decode.
///
/// A header object with more than `HEADER_MAP_LIMIT` members is refused
/// with a 400 answer too, so that the header map always has room.
///
/// A target that `build_proxy_url` made (its base without `?`) is read
/// back as the stream URL and, when the headers given are sendable and at
/// most `HEADER_MAP_LIMIT`, as exactly those headers, names in lower case.
pub fn parse_proxy_request(request_url: &str) -> (r: Result<ProxyRequest, ProxyError>)
    ensures
        match proxy_request_of(request_url@) {
            Ok((t, h)) => r matches Ok(p) && p.url@ == t && header_map_view(p.headers) == h,
            Err((status, m)) => r matches Err(e) && e.status == status && e.message@ == m,
        },
        forall|base: Seq<char>, url: Seq<char>, hs: Seq<(Seq<char>, Seq<char>)>|
            #![trigger proxy_url_of(base, url, hs)]
            request_url@ == proxy_url_of(base, url, hs) && no_question_mark(base) && sendable(hs)
                && hs.len() <= HEADER_MAP_LIMIT
                ==> (r matches Ok(p) && p.url@ == url && header_map_view(p.headers) == sent_headers(
                hs,
            )),
{
    let u = chars_of(request_url);
    let url = match read_target(&u) {
        Ok(t) => t,
        Err(m) => {
            let r = Err(ProxyError { status: 400, message: m });
            proof {
                assert forall|base: Seq<char>, url: Seq<char>, hs: Seq<(Seq<char>, Seq<char>)>|
                    request_url@ == #[trigger] proxy_url_of(base, url, hs) && no_question_mark(base)
                        && sendable(hs) && hs.len() <= HEADER_MAP_LIMIT implies false by {
                    lemma_proxy_url_parts(base, url, hs);
                }
            }
            return r;
        },
    };
    let r = match read_headers(&u) {
        Ok(headers) => Ok(ProxyRequest { url, headers }),
        Err(m) => Err(ProxyError { status: 400, message: m }),
    };
    proof {
        assert forall|base: Seq<char>, url: Seq<char>, hs: Seq<(Seq<char>, Seq<char>)>|
            request_url@ == #[trigger] proxy_url_of(base, url, hs) && no_question_mark(base)
                && sendable(hs) && hs.len() <= HEADER_MAP_LIMIT implies (r matches Ok(p) && p.url@ == url && header_map_view(
            p.headers,
        ) == sent_headers(hs)) by {
            lemma_proxy_url_parts(base, url, hs);
            lemma_sendable_keys(hs);
            let fs = json_object_fields(json_object(hs))->0;
            lemma_fold_members(fs, hs);
            lemma_members_len(fs, hs);
        }
    }
    r
}

} // verus!

verus! {

/// No `?` occurs in the text.
pub open spec fn no_question_mark(s: Seq<char>) -> bool {
    forall|i: int| 0 <= i < s.len() ==> s[i] != '?'
}

/// Neither `?` nor `&` occurs in the text.
pub open spec fn no_query_marks(s: Seq<char>) -> bool {
    forall|i: int| 0 <= i < s.len() ==> s[i] != '?' && s[i] != '&'
}

proof fn lemma_pct_no_marks(bs: Seq<u8>)
    ensures
        no_query_marks(crate::url_codec::pct_encode(bs)),
    decreases bs.len(),
{
    if bs.len() > 0 {
        lemma_pct_no_marks(bs.drop_first());
        let a = crate::url_codec::pct_byte(bs[0]);
        let b = crate::url_codec::pct_encode(bs.drop_first());
        assert(no_query_marks(a));
        assert(crate::url_codec::pct_encode(bs) == a + b);
        assert forall|i: int| 0 <= i < (a + b).len() implies (a + b)[i] != '?' && (a + b)[i] != '&' by {
            if i < a.len() {
                assert((a + b)[i] == a[i]);
            } else {
                assert((a + b)[i] == b[i - a.len()]);
            }
        }
    }
}

proof fn lemma_find_char_none(s: Seq<char>, c: char, i: int)
    requires
        0 <= i,
        forall|k: int| i <= k < s.len() ==> s[k] != c,
    ensures
        find_char(s, c, i) is None,
    decreases s.len() - i,
{
    if i < s.len() {
        lemma_find_char_none(s, c, i + 1);
    }
}

proof fn lemma_find_char_at(s: Seq<char>, c: char, i: int, j: int)
    requires
        0 <= i <= j < s.len(),
        s[j] == c,
        forall|k: int| i <= k < j ==> s[k] != c,
    ensures
        find_char(s, c, i) == Some(j),
    decreases j - i,
{
    if i < j {
        lemma_find_char_at(s, c, i + 1, j);
    }
}

/// How a proxied URL reads: its URL field decodes to the stream URL and its
/// header field to the JSON text of the headers.
proof fn lemma_proxy_url_parts(
    base: Seq<char>,
    url: Seq<char>,
    headers: Seq<(Seq<char>, Seq<char>)>,
)
    requires
        no_question_mark(base),
    ensures
        target_of(proxy_url_of(base, url, headers)) == Ok::<Seq<char>, Seq<char>>(url),
        param_of(proxy_url_of(base, url, headers), headers_prefix()) is Some,
        header_text(proxy_url_of(base, url, headers)) == Some(json_object(headers)),
{
    reveal_strlit("/proxy?url=");
    reveal_strlit("&headers=");
    reveal_strlit("url=");
    reveal_strlit("headers=");
    let e = url_encoded(url);
    let h = url_encoded(json_object(headers));
    lemma_pct_no_marks(encode_utf8(url));
    lemma_pct_no_marks(encode_utf8(json_object(headers)));
    let lit1 = "/proxy?url="@;
    let lit2 = "&headers="@;
    let u = proxy_url_of(base, url, headers);
    assert(u == base + lit1 + e + lit2 + h);
    let q = "url="@ + e + lit2 + h;
    let k: int = base.len() as int + 6;
    assert(u[k] == '?');
    assert forall|m: int| 0 <= m < k implies u[m] != '?' by {
        if m < base.len() {
            assert(u[m] == base[m]);
        } else {
            assert(u[m] == lit1[m - base.len()]);
        }
    }
    lemma_find_char_at(u, '?', 0, k);
    assert forall|m: int| k + 1 <= m < u.len() implies u[m] != '?' by {
        let off = m - base.len() - lit1.len();
        if m < base.len() + lit1.len() {
            assert(u[m] == lit1[m - base.len()]);
        } else if off < e.len() {
            assert(u[m] == e[off]);
        } else if off < e.len() + lit2.len() {
            assert(u[m] == lit2[off - e.len()]);
        } else {
            assert(u[m] == h[off - e.len() - lit2.len()]);
        }
    }
    lemma_find_char_none(u, '?', k + 1);
    assert(u.subrange(k + 1, u.len() as int) =~= q);
    assert(query_of(u) == Some(q));
    // The url field.
    let end: int = 4 + e.len() as int;
    assert(q[end] == '&');
    assert forall|m: int| 0 <= m < end implies q[m] != '&' by {
        if m < 4 {
            assert(q[m] == "url="@[m]);
        } else {
            assert(q[m] == e[m - 4]);
        }
    }
    lemma_find_char_at(q, '&', 0, end);
    let seg = q.subrange(0, end);
    assert(seg.subrange(0, 4) =~= "url="@);
    assert(param_from(q, 0, "url="@) == Some(seg));
    assert(seg.subrange(4, seg.len() as int) =~= e);
    crate::url_codec::lemma_url_round_trip(url);
    assert(target_of(u) == Ok::<Seq<char>, Seq<char>>(url));
    // The header field.
    let start2: int = end + 1;
    assert forall|m: int| start2 <= m < q.len() implies q[m] != '&' by {
        if m < end + lit2.len() {
            assert(q[m] == lit2[m - end]);
        } else {
            assert(q[m] == h[m - end - lit2.len()]);
        }
    }
    lemma_find_char_none(q, '&', start2);
    let seg2 = q.subrange(start2, q.len() as int);
    assert(seg2 =~= "headers="@ + h);
    assert(seg2.subrange(0, 8) =~= "headers="@);
    assert(seg[0] == 'u');
    assert(seg.len() < 8 || seg.subrange(0, 8) != "headers="@) by {
        if seg.len() >= 8 {
            assert(seg.subrange(0, 8)[0] != "headers="@[0]);
        }
    }
    assert(param_from(q, start2, "headers="@) == Some(seg2));
    assert(param_from(q, 0, "headers="@) == Some(seg2));
    assert(seg2.subrange(8, seg2.len() as int) =~= h);
    crate::url_codec::lemma_url_round_trip(json_object(headers));
}

/// A proxied URL carries the stream URL: reading the target of a request for
/// `proxy_url_of(base, url, headers)` (or for its path, `base` empty)
/// forwards to `url`, and its header field decodes to the JSON text of the
/// headers given.
pub proof fn lemma_proxy_url_round_trip(
    base: Seq<char>,
    url: Seq<char>,
    headers: Seq<(Seq<char>, Seq<char>)>,
)
    requires
        no_question_mark(base),
    ensures
        target_of(proxy_url_of(base, url, headers)) == Ok::<Seq<char>, Seq<char>>(url),
        header_text(proxy_url_of(base, url, headers)) == Some(json_object(headers)),
{
    lemma_proxy_url_parts(base, url, headers);
}

proof fn lemma_sendable_keys(hs: Seq<(Seq<char>, Seq<char>)>)
    requires
        sendable(hs),
    ensures
        keys_distinct(hs),
{
}

/// Members whose values are strings and whose names and values are valid
/// headers, no two names the same once lower-cased.
pub open spec fn good_members(fs: Seq<(Seq<char>, Option<Seq<char>>)>) -> bool {
    &&& forall|j: int| 0 <= j < fs.len() ==> #[trigger] fs[j].1 is Some && header_name_of(fs[j].0) is Some
        && header_value_ok(fs[j].1->0)
    &&& forall|i: int, j: int| 0 <= i < j < fs.len() ==> header_name_of(fs[i].0) != header_name_of(fs[j].0)
}

/// Folding good members sets exactly their names, each to its value.
proof fn lemma_fold_good(fs: Seq<(Seq<char>, Option<Seq<char>>)>)
    requires
        good_members(fs),
    ensures
        forall|n: Seq<char>| #[trigger] header_fold(fs).dom().contains(n) <==> exists|j: int| 0 <= j < fs.len()
            && header_name_of(fs[j].0) == Some(n),
        forall|j: int| 0 <= j < fs.len() ==> header_fold(fs)[header_name_of(#[trigger] fs[j].0)->0] == fs[j].1->0,
    decreases fs.len(),
{
    if fs.len() > 0 {
        let init = fs.drop_last();
        assert(good_members(init)) by {
            assert forall|j: int| 0 <= j < init.len() implies #[trigger] init[j].1 is Some && header_name_of(init[j].0) is Some
                && header_value_ok(init[j].1->0) by {
                assert(init[j] == fs[j]);
            }
            assert forall|i: int, j: int| 0 <= i < j < init.len() implies header_name_of(init[i].0) != header_name_of(init[j].0) by {
                assert(init[i] == fs[i]);
                assert(init[j] == fs[j]);
            }
        }
        lemma_fold_good(init);
        let last = fs.len() - 1;
        assert(fs.last() == fs[last]);
        assert(fs[last].1 is Some && header_name_of(fs[last].0) is Some);
        let n_last = header_name_of(fs[last].0)->0;
        let v_last = fs[last].1->0;
        assert(header_fold(fs) == header_fold(init).insert(n_last, v_last));
        assert forall|n: Seq<char>| #[trigger] header_fold(fs).dom().contains(n) <==> exists|j: int| 0 <= j < fs.len()
            && header_name_of(fs[j].0) == Some(n) by {
            if header_fold(fs).dom().contains(n) {
                if n == n_last {
                    assert(header_name_of(fs[last].0) == Some(n));
                } else {
                    assert(header_fold(init).dom().contains(n));
                    let j = choose|j: int| 0 <= j < init.len() && header_name_of(init[j].0) == Some(n);
                    assert(fs[j] == init[j]);
                }
            }
            if exists|j: int| 0 <= j < fs.len() && header_name_of(fs[j].0) == Some(n) {
                let j = choose|j: int| 0 <= j < fs.len() && header_name_of(fs[j].0) == Some(n);
                if j < last {
                    assert(init[j] == fs[j]);
                    assert(header_fold(init).dom().contains(n));
                }
            }
        }
        assert forall|j: int| 0 <= j < fs.len() implies header_fold(fs)[header_name_of(#[trigger] fs[j].0)->0] == fs[j].1->0 by {
            if j < last {
                assert(init[j] == fs[j]);
                assert(header_name_of(fs[j].0) != header_name_of(fs[last].0));
                assert(header_fold(init)[header_name_of(init[j].0)->0] == init[j].1->0);
            }
        }
    }
}

/// A parsed object whose members are those of some pairs has no more
/// members than there are pairs.
proof fn lemma_members_len(fs: Seq<(Seq<char>, Option<Seq<char>>)>, hs: Seq<(Seq<char>, Seq<char>)>)
    requires
        members_are(fs, hs),
    ensures
        fs.len() <= hs.len(),
{
    let ms = string_members(hs);
    assert(fs.no_duplicates()) by {
        assert forall|i: int, j: int| 0 <= i < fs.len() && 0 <= j < fs.len() && i != j implies fs[i]
            != fs[j] by {
            if i < j {
                assert(fs[i].0 != fs[j].0);
            } else {
                assert(fs[j].0 != fs[i].0);
            }
        }
    }
    fs.unique_seq_to_set();
    ms.lemma_cardinality_of_set();
    assert(fs.to_set().subset_of(ms.to_set())) by {
        assert forall|x: (Seq<char>, Option<Seq<char>>)| fs.to_set().contains(x) implies ms.to_set().contains(x) by {
            assert(fs.contains(x));
        }
    }
    vstd::set_lib::lemma_len_subset(fs.to_set(), ms.to_set());
}

/// The headers set from the members of the object that a proxied URL
/// carries are the headers given.
proof fn lemma_fold_members(fs: Seq<(Seq<char>, Option<Seq<char>>)>, hs: Seq<(Seq<char>, Seq<char>)>)
    requires
        members_are(fs, hs),
        sendable(hs),
    ensures
        header_fold(fs) == sent_headers(hs),
{
    let ms = string_members(hs);
    assert forall|j: int| 0 <= j < fs.len() implies exists|i: int| 0 <= i < hs.len() && #[trigger] fs[j] == (hs[i].0, Some(hs[i].1)) by {
        assert(fs.contains(fs[j]));
        assert(ms.contains(fs[j]));
        let i = choose|i: int| 0 <= i < ms.len() && ms[i] == fs[j];
        assert(ms[i] == (hs[i].0, Some(hs[i].1)));
    }
    assert forall|i: int| #![trigger hs[i]] 0 <= i < hs.len() implies exists|j: int| 0 <= j < fs.len() && #[trigger] fs[j] == (hs[i].0, Some(hs[i].1)) by {
        assert(ms[i] == (hs[i].0, Some(hs[i].1)));
        assert(ms.contains(ms[i]));
        assert(fs.contains(ms[i]));
    }
    assert(good_members(fs)) by {
        assert forall|j: int| 0 <= j < fs.len() implies #[trigger] fs[j].1 is Some && header_name_of(fs[j].0) is Some
            && header_value_ok(fs[j].1->0) by {
            let i = choose|i: int| 0 <= i < hs.len() && fs[j] == (hs[i].0, Some(hs[i].1));
            assert(header_name_of(hs[i].0) is Some);
        }
        assert forall|a: int, b: int| 0 <= a < b < fs.len() implies header_name_of(fs[a].0) != header_name_of(fs[b].0) by {
            let ia = choose|i: int| 0 <= i < hs.len() && fs[a] == (hs[i].0, Some(hs[i].1));
            let ib = choose|i: int| 0 <= i < hs.len() && fs[b] == (hs[i].0, Some(hs[i].1));
            assert(fs[a].0 != fs[b].0);
            if ia < ib {
            } else if ib < ia {
            }
        }
    }
    assert(good_members(ms)) by {
        assert forall|j: int| 0 <= j < ms.len() implies #[trigger] ms[j].1 is Some && header_name_of(ms[j].0) is Some
            && header_value_ok(ms[j].1->0) by {
            assert(ms[j] == (hs[j].0, Some(hs[j].1)));
            assert(header_name_of(hs[j].0) is Some);
        }
        assert forall|a: int, b: int| 0 <= a < b < ms.len() implies header_name_of(ms[a].0) != header_name_of(ms[b].0) by {
            assert(ms[a] == (hs[a].0, Some(hs[a].1)));
            assert(ms[b] == (hs[b].0, Some(hs[b].1)));
        }
    }
    lemma_fold_good(fs);
    lemma_fold_good(ms);
    let f1 = header_fold(fs);
    let f2 = header_fold(ms);
    assert forall|n: Seq<char>| f1.dom().contains(n) <==> f2.dom().contains(n) by {
        if f1.dom().contains(n) {
            let j = choose|j: int| 0 <= j < fs.len() && header_name_of(fs[j].0) == Some(n);
            let i = choose|i: int| 0 <= i < hs.len() && fs[j] == (hs[i].0, Some(hs[i].1));
            assert(ms[i] == (hs[i].0, Some(hs[i].1)));
        }
        if f2.dom().contains(n) {
            let i = choose|i: int| 0 <= i < ms.len() && header_name_of(ms[i].0) == Some(n);
            assert(ms[i] == (hs[i].0, Some(hs[i].1)));
            let j = choose|j: int| 0 <= j < fs.len() && fs[j] == (hs[i].0, Some(hs[i].1));
            assert(header_name_of(fs[j].0) == Some(n));
        }
    }
    assert forall|n: Seq<char>| f1.dom().contains(n) implies f1[n] == f2[n] by {
        let j = choose|j: int| 0 <= j < fs.len() && header_name_of(fs[j].0) == Some(n);
        let i = choose|i: int| 0 <= i < hs.len() && fs[j] == (hs[i].0, Some(hs[i].1));
        assert(ms[i] == (hs[i].0, Some(hs[i].1)));
        assert(f1[header_name_of(fs[j].0)->0] == fs[j].1->0);
        assert(f2[header_name_of(ms[i].0)->0] == ms[i].1->0);
    }
    assert(f1 =~= f2);
}

} // verus!

verus! {

/// The header that lets the player's page read a proxied answer.
pub open spec fn cors_header() -> (Seq<char>, Seq<char>) {
    ("Access-Control-Allow-Origin"@, "*"@)
}

/// The upstream answer's headers whose values are text, in order.
pub open spec fn passed_headers(raw: Seq<(Seq<char>, Option<Seq<char>>)>) -> Seq<(Seq<char>, Seq<char>)>
    decreases raw.len(),
{
    if raw.len() == 0 {
        Seq::empty()
    } else {
        match raw.last().1 {
            Some(v) => passed_headers(raw.drop_last()).push((raw.last().0, v)),
            None => passed_headers(raw.drop_last()),
        }
    }
}

/// The headers of a proxied answer: the upstream headers whose values are
/// text, in order, then `Access-Control-Allow-Origin: *`.
pub fn proxy_response_headers(raw: &Vec<(String, Option<String>)>) -> (r: Vec<(String, String)>)
    ensures
        pairs_view(r@) == passed_headers(fields_view(raw@)).push(cors_header()),
{
    let ghost fs = fields_view(raw@);
    let mut out: Vec<(String, String)> = Vec::new();
    let mut i: usize = 0;
    while i < raw.len()
        invariant
            i <= raw@.len(),
            fs == fields_view(raw@),
            pairs_view(out@) =~= passed_headers(fs.subrange(0, i as int)),
        decreases raw.len() - i,
    {
        proof {
            assert(fs.subrange(0, i + 1).drop_last() =~= fs.subrange(0, i as int));
            assert(fs.subrange(0, i + 1).last() == (raw@[i as int].0@, opt_view(raw@[i as int].1)));
        }
        match &raw[i].1 {
            Some(v) => {
                let e = (raw[i].0.clone(), v.clone());
                proof {
                    assert(pairs_view(out@.push(e)) =~= pairs_view(out@).push((e.0@, e.1@)));
                }
                out.push(e);
            },
            None => {},
        }
        i = i + 1;
    }
    assert(fs.subrange(0, raw@.len() as int) =~= fs);
    let cors = (String::from_str("Access-Control-Allow-Origin"), String::from_str("*"));
    proof {
        assert(pairs_view(out@.push(cors)) =~= pairs_view(out@).push((cors.0@, cors.1@)));
    }
    out.push(cors);
    out
}


/// The proxied answer carries every upstream header whose value is text,
/// in the upstream order and with repeated names kept, and nothing else
/// before its closing `Access-Control-Allow-Origin: *`.
pub proof fn lemma_every_text_header_passes(raw: Seq<(Seq<char>, Option<Seq<char>>)>)
    ensures
        passed_headers(raw) == raw.filter(|h: (Seq<char>, Option<Seq<char>>)| h.1 is Some).map_values(
            |h: (Seq<char>, Option<Seq<char>>)| (h.0, h.1->0),
        ),
        passed_headers(raw).len() == raw.filter(|h: (Seq<char>, Option<Seq<char>>)| h.1 is Some).len(),
        cors_header() == ("Access-Control-Allow-Origin"@, "*"@),
    decreases raw.len(),
{
    reveal(Seq::filter);
    let pred = |h: (Seq<char>, Option<Seq<char>>)| h.1 is Some;
    let f = |h: (Seq<char>, Option<Seq<char>>)| (h.0, h.1->0);
    if raw.len() == 0 {
        assert(raw.filter(pred).map_values(f) =~= Seq::<(Seq<char>, Seq<char>)>::empty());
    } else {
        lemma_every_text_header_passes(raw.drop_last());
        let d = raw.drop_last().filter(pred);
        if raw.last().1 is Some {
            assert(d.push(raw.last()).map_values(f) =~= d.map_values(f).push(f(raw.last())));
        }
    }
}

} // verus!
