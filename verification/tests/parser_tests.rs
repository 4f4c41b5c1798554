use tingfm_radio::models::ScriptModel;
use tingfm_radio::parser::{normalize_run_at, parse_script};

#[test]
fn test_parse_basic_metadata() {
    let code = r#"// ==UserScript==
// @name         Test Script
// @version      1.2.3
// @match        https://example.com/*
// @grant        GM_getValue
// @run-at       document-start
// ==/UserScript==
console.log("hello");
"#;
    let script = parse_script(code).unwrap();
    assert_eq!(script.name, "Test Script");
    assert_eq!(script.version, "1.2.3");
    assert_eq!(script.matches, vec!["https://example.com/*"]);
    assert_eq!(script.grants, vec!["GM_getValue"]);
    assert_eq!(script.run_at, "document-start");
    assert!(script.code.contains("console.log"));
}

#[test]
fn test_parse_multiple_grants() {
    let code = r#"// ==UserScript==
// @grant GM_getValue
// @grant GM_setValue
// ==/UserScript==
console.log('ok');
"#;
    let script = parse_script(code).unwrap();
    assert_eq!(script.grants, vec!["GM_getValue", "GM_setValue"]);
}

#[test]
fn test_no_metadata_defaults() {
    let code = "console.log('no metadata');";
    let script = parse_script(code).unwrap();
    assert_eq!(script.name, "未命名脚本");
    assert_eq!(script.run_at, "document-end");
    assert!(script.matches.is_empty());
}

#[test]
fn test_empty_code_error() {
    let code = "// ==UserScript==\n// @name Empty\n// ==/UserScript==";
    assert!(parse_script(code).is_err());
}

#[test]
fn empty_code_error_message() {
    assert_eq!(parse_script("   \n ").unwrap_err(), "脚本代码体为空");
}

#[test]
fn full_header_is_read_field_by_field() {
    let code = "// ==UserScript==\r\n// @name  Demo\r\n// @namespace ns.example\r\n// @version 2.0\r\n// @homepageURL https://h.example/\r\n// @icon https://i.example/i.png\r\n// @updateURL https://u.example/s.js\r\n// @include https://a.example/*\r\n// @exclude https://a.example/private/*\r\n// @require https://cdn.example/lib.js\r\n// @run-at document-body\r\n// ==/UserScript==\r\n\r\nalert(1);\r\n";
    let s = parse_script(code).unwrap();
    assert_eq!(s.id, "");
    assert_eq!(s.name, "Demo");
    assert_eq!(s.namespace, "ns.example");
    assert_eq!(s.version, "2.0");
    assert_eq!(s.homepage, "https://h.example/");
    assert_eq!(s.icon, "https://i.example/i.png");
    assert_eq!(s.update_url, "https://u.example/s.js");
    assert!(s.matches.is_empty());
    assert_eq!(s.includes, vec!["https://a.example/*"]);
    assert_eq!(s.excludes, vec!["https://a.example/private/*"]);
    assert_eq!(s.requires, vec!["https://cdn.example/lib.js"]);
    assert_eq!(s.run_at, "document-end");
    assert_eq!(s.code, "alert(1);");
    assert!(s.enabled);
}

#[test]
fn homepage_wins_over_homepage_url() {
    let code = "// ==UserScript==\n// @homepageURL https://b/\n// @homepage https://a/\n// ==/UserScript==\nx";
    assert_eq!(parse_script(code).unwrap().homepage, "https://a/");
}

#[test]
fn first_value_of_a_single_field_is_kept() {
    let code = "// ==UserScript==\n// @name First\n// @name Second\n// ==/UserScript==\nx";
    assert_eq!(parse_script(code).unwrap().name, "First");
}

#[test]
fn lines_that_are_not_entries_are_skipped() {
    let code = "// ==UserScript==\n// just a comment\n//@name Tight\n// @flag\n// @description  \n/// @version 9\n// ==/UserScript==\nx";
    let s = parse_script(code).unwrap();
    assert_eq!(s.name, "Tight");
    assert_eq!(s.version, "9");
}

#[test]
fn header_without_closing_marker_is_code() {
    let code = "// ==UserScript==\n// @name Open\nrun();";
    let s = parse_script(code).unwrap();
    assert_eq!(s.name, "未命名脚本");
    assert_eq!(s.code, code);
}

#[test]
fn text_before_the_header_is_dropped_from_the_code() {
    let code = "'use strict';\n//   ==UserScript==\n// @name X\n//==/UserScript==  tail();";
    let s = parse_script(code).unwrap();
    assert_eq!(s.name, "X");
    assert_eq!(s.code, "tail();");
}

#[test]
fn unicode_keys_and_values() {
    let code = "// ==UserScript==\n// @name:zh-CN 脚本\n// @name 名字\n// ==/UserScript==\nx";
    let s = parse_script(code).unwrap();
    assert_eq!(s.name, "名字");
}

#[test]
fn run_at_stages() {
    assert_eq!(normalize_run_at(" document-start "), "document-start");
    assert_eq!(normalize_run_at("document-idle"), "document-idle");
    assert_eq!(normalize_run_at("document-body"), "document-end");
    assert_eq!(normalize_run_at("later"), "document-end");
}

#[test]
fn default_script_model() {
    let d = ScriptModel::default();
    assert_eq!(d.name, "未命名脚本");
    assert_eq!(d.version, "1.0");
    assert_eq!(d.run_at, "document-end");
    assert!(d.enabled);
    assert!(d.id.is_empty() && d.code.is_empty() && d.grants.is_empty());
}

#[test]
fn crlf_script_parses_like_lf() {
    let lf = "// ==UserScript==\n// @name  Radio\n// @match https://a.example/*\n// @grant GM_xmlhttpRequest\n// ==/UserScript==\nlet a = 1;\nlet b = 2;\n";
    let crlf = lf.replace('\n', "\r\n");
    let x = parse_script(lf).unwrap();
    let y = parse_script(&crlf).unwrap();
    assert_eq!(x.name, y.name);
    assert_eq!(x.matches, y.matches);
    assert_eq!(x.grants, y.grants);
    assert_eq!(x.run_at, y.run_at);
    assert_eq!(x.code, "let a = 1;\nlet b = 2;");
    assert_eq!(y.code, x.code.replace('\n', "\r\n"));
    assert!(parse_script("\r\n\r\n").is_err());
    assert!(parse_script("\n\n").is_err());
}
