use std::collections::HashMap;
use tingfm_radio::stream_proxy::{
    build_proxy_url, ensure_proxy_server, parse_proxy_request, proxy_response_headers,
    StreamProxyServer,
};

fn pairs(map: &HashMap<String, String>) -> Vec<(String, String)> {
    map.iter().map(|(k, v)| (k.clone(), v.clone())).collect()
}

fn start_server() -> Result<StreamProxyServer, String> {
    let server = tiny_http::Server::http("127.0.0.1:0").map_err(|e| e.to_string())?;
    let port = server
        .server_addr()
        .to_ip()
        .map(|addr| addr.port())
        .ok_or("无法获取代理端口".to_string())?;
    Ok(StreamProxyServer::new(port))
}

#[test]
fn test_build_proxy_url() {
    let base = "http://127.0.0.1:1234";
    let url = "http://example.com/stream.m3u8";
    let mut headers = HashMap::new();
    headers.insert("Referer".to_string(), "https://tingfm.net/".to_string());
    let proxy_url = build_proxy_url(base, url, &pairs(&headers));
    assert!(proxy_url.starts_with("http://127.0.0.1:1234/proxy?url="));
    assert!(proxy_url.contains("headers="));
}

#[test]
fn test_ensure_proxy_server_starts() {
    let mut slot = None;
    let base = ensure_proxy_server(&mut slot, start_server).expect("应能启动代理服务器");
    assert!(base.starts_with("http://127.0.0.1:"));
}

#[test]
fn running_server_is_reused() {
    let mut slot = Some(StreamProxyServer::new(8080));
    let base = ensure_proxy_server(&mut slot, || -> Result<StreamProxyServer, String> {
        panic!("must not start a second server")
    })
    .unwrap();
    assert_eq!(base, "http://127.0.0.1:8080");
    assert_eq!(slot.unwrap().port(), 8080);
}

#[test]
fn start_failure_is_reported_and_nothing_kept() {
    let mut slot = None;
    let r = ensure_proxy_server(&mut slot, || Err("bind failed".to_string()));
    assert_eq!(r, Err("bind failed".to_string()));
    assert!(slot.is_none());
}

#[test]
fn base_url_of_a_port() {
    assert_eq!(StreamProxyServer::new(0).base_url(), "http://127.0.0.1:0");
    assert_eq!(StreamProxyServer::new(65535).base_url(), "http://127.0.0.1:65535");
}

#[test]
fn proxy_url_is_fully_encoded() {
    let headers = vec![("Referer".to_string(), "https://tingfm.net/".to_string())];
    let u = build_proxy_url("http://127.0.0.1:9", "http://a.com/s?x=1&y=é", &headers);
    assert_eq!(
        u,
        "http://127.0.0.1:9/proxy?url=http%3A%2F%2Fa.com%2Fs%3Fx%3D1%26y%3D%C3%A9&headers=%7B%22Referer%22%3A%22https%3A%2F%2Ftingfm.net%2F%22%7D"
    );
    let empty = build_proxy_url("", "a", &Vec::new());
    assert_eq!(empty, "/proxy?url=a&headers=%7B%7D");
}

fn header(req: &tingfm_radio::stream_proxy::ProxyRequest, name: &str) -> Option<String> {
    req.headers.get(name).map(|v| v.to_str().unwrap().to_string())
}

#[test]
fn proxied_target_reads_back_the_stream_url_and_headers() {
    let headers = vec![("Referer".to_string(), "https://tingfm.net/".to_string())];
    let target = build_proxy_url("", "http://a.com/s?x=1&y=é", &headers);
    let req = parse_proxy_request(&target).ok().unwrap();
    assert_eq!(req.url, "http://a.com/s?x=1&y=é");
    assert_eq!(req.headers.len(), 1);
    assert_eq!(header(&req, "referer"), Some("https://tingfm.net/".to_string()));
}

#[test]
fn referer_of_the_test_url_is_forwarded() {
    let target = "/proxy?url=http%3A%2F%2Fexample.com%2Fstream.m3u8&headers=%7B%22Referer%22%3A%22https%3A%2F%2Ftingfm.net%2F%22%7D";
    let req = parse_proxy_request(target).ok().unwrap();
    assert_eq!(req.url, "http://example.com/stream.m3u8");
    assert_eq!(req.headers.len(), 1);
    assert_eq!(header(&req, "Referer"), Some("https://tingfm.net/".to_string()));
}

#[test]
fn header_field_members() {
    let target = "/proxy?url=http%3A%2F%2Fa&headers=%7B%22Referer%22%3A%22r%22%2C%22X-Bad%5Cn%22%3A%22v%22%2C%22n%22%3A1%2C%22referer%22%3A%22s%22%7D";
    let req = parse_proxy_request(target).ok().unwrap();
    assert_eq!(req.url, "http://a");
    assert_eq!(req.headers.len(), 1);
    assert_eq!(header(&req, "referer"), Some("s".to_string()));
}

#[test]
fn header_values_with_control_characters_are_dropped() {
    let target = "/proxy?url=a&headers=%7B%22A%22%3A%22ok%5Cttab%22%2C%22B%22%3A%22bad%5Cu0001%22%7D";
    let req = parse_proxy_request(target).ok().unwrap();
    assert_eq!(req.headers.len(), 1);
    assert_eq!(req.headers.get("a").unwrap().as_bytes(), b"ok\ttab");
}

#[test]
fn missing_url_is_a_400() {
    let e = parse_proxy_request("/proxy").err().unwrap();
    assert_eq!(e.status, 400);
    assert_eq!(e.message, "缺少 url 参数");
    let e = parse_proxy_request("/proxy?headers=%7B%7D").err().unwrap();
    assert_eq!(e.message, "缺少 url 参数");
}

#[test]
fn undecodable_fields_are_a_400() {
    let e = parse_proxy_request("/proxy?url=%FF").err().unwrap();
    assert_eq!(e.status, 400);
    assert_eq!(e.message, "无法解码 URL 参数");
    let e = parse_proxy_request("/proxy?url=a&headers=%FF").err().unwrap();
    assert_eq!(e.status, 400);
    assert_eq!(e.message, "无法解码 headers 参数");
}

#[test]
fn empty_or_non_object_header_field_sends_no_headers() {
    let req = parse_proxy_request("/proxy?url=http%3A%2F%2Fexample.com%2F&headers=").ok().unwrap();
    assert_eq!(req.url, "http://example.com/");
    assert!(req.headers.is_empty());
    let req = parse_proxy_request("/proxy?url=a&headers=x").ok().unwrap();
    assert!(req.headers.is_empty());
    let req = parse_proxy_request("/proxy?url=a").ok().unwrap();
    assert!(req.headers.is_empty());
}

#[test]
fn only_the_segment_after_the_first_question_mark_is_read() {
    let req = parse_proxy_request("/p?url=a?url=b").ok().unwrap();
    assert_eq!(req.url, "a");
}

#[test]
fn proxied_answer_headers_keep_text_values_and_allow_any_origin() {
    let upstream = vec![
        ("content-type".to_string(), Some("audio/mpeg".to_string())),
        ("x-bin".to_string(), None),
        ("icy-name".to_string(), Some("Radio".to_string())),
    ];
    assert_eq!(
        proxy_response_headers(&upstream),
        vec![
            ("content-type".to_string(), "audio/mpeg".to_string()),
            ("icy-name".to_string(), "Radio".to_string()),
            ("Access-Control-Allow-Origin".to_string(), "*".to_string()),
        ]
    );
    assert_eq!(
        proxy_response_headers(&Vec::new()),
        vec![("Access-Control-Allow-Origin".to_string(), "*".to_string())]
    );
}

#[test]
fn header_objects_up_to_the_limit_are_forwarded_and_larger_ones_refused() {
    let limit = tingfm_radio::headers::HEADER_MAP_LIMIT;
    let mut headers: Vec<(String, String)> = (0..limit)
        .map(|i| (format!("x-h{}", i), format!("v{}", i)))
        .collect();
    let target = build_proxy_url("", "http://a/s", &headers);
    let req = parse_proxy_request(&target).ok().unwrap();
    assert_eq!(req.headers.len(), limit);
    assert_eq!(header(&req, "x-h17"), Some("v17".to_string()));
    headers.push(("x-extra".to_string(), "v".to_string()));
    let target = build_proxy_url("", "http://a/s", &headers);
    let e = parse_proxy_request(&target).err().unwrap();
    assert_eq!(e.status, 400);
    assert_eq!(e.message, "headers 参数中的请求头过多");
}
