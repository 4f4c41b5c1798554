use tingfm_radio::models::ScriptModel;
use tingfm_radio::parser::parse_script;
use tingfm_radio::storage::{
    find_by_identity, find_by_url, new_script_id, plan_install, script_from_row, script_to_row,
};

fn script(name: &str, namespace: &str, id: &str) -> ScriptModel {
    let mut s = ScriptModel::default();
    s.name = name.to_string();
    s.namespace = namespace.to_string();
    s.id = id.to_string();
    s.code = "x".to_string();
    s
}

#[test]
fn row_round_trip_keeps_the_script() {
    let mut s = script("Demo", "ns", "script_1");
    s.matches = vec!["https://a/*".to_string(), "quote\" back\\ tab\t nl\n ctl\u{1}".to_string()];
    s.grants = vec!["GM_getValue".to_string(), "脚本".to_string()];
    s.enabled = false;
    let row = script_to_row(&s);
    assert_eq!(row.grants, "[\"GM_getValue\",\"脚本\"]");
    assert_eq!(row.matches, "[\"https://a/*\",\"quote\\\" back\\\\ tab\\t nl\\n ctl\\u0001\"]");
    assert_eq!(row.includes, "[]");
    assert_eq!(row.enabled, 0);
    let back = script_from_row(&row);
    assert_eq!(back.matches, s.matches);
    assert_eq!(back.grants, s.grants);
    assert_eq!(back.name, "Demo");
    assert_eq!(back.namespace, "ns");
    assert_eq!(back.id, "script_1");
    assert!(!back.enabled);
}

#[test]
fn unreadable_list_column_reads_as_empty() {
    let mut row = script_to_row(&script("A", "", "1"));
    row.requires = "not json".to_string();
    row.enabled = 7;
    let back = script_from_row(&row);
    assert!(back.requires.is_empty());
    assert!(back.enabled);
}

#[test]
fn identity_uses_namespace_only_when_both_have_one() {
    let stored = vec![script("A", "x", "1"), script("A", "y", "2"), script("B", "", "3")];
    assert_eq!(find_by_identity(&stored, "A", "y").unwrap().id, "2");
    assert_eq!(find_by_identity(&stored, "A", "").unwrap().id, "1");
    assert_eq!(find_by_identity(&stored, "B", "z").unwrap().id, "3");
    assert!(find_by_identity(&stored, "A", "z").is_none());
    assert!(find_by_identity(&stored, "C", "").is_none());
}

#[test]
fn scripts_for_url_follow_enabled_matches_and_excludes() {
    let mut a = script("a", "", "1");
    a.matches = vec!["https://site.com/*".to_string()];
    let mut b = script("b", "", "2");
    b.includes = vec!["https://site.com/*".to_string()];
    b.excludes = vec!["https://site.com/admin*".to_string()];
    let mut c = script("c", "", "3");
    c.matches = vec!["https://site.com/*".to_string()];
    c.enabled = false;
    let d = script("d", "", "4");
    let found = find_by_url(vec![a.clone(), b.clone(), c, d], "https://site.com/page");
    let ids: Vec<String> = found.iter().map(|s| s.id.clone()).collect();
    assert_eq!(ids, vec!["1", "2"]);
    let found = find_by_url(vec![a, b], "https://site.com/admin/x");
    let ids: Vec<String> = found.iter().map(|s| s.id.clone()).collect();
    assert_eq!(ids, vec!["1"]);
}

#[test]
fn fresh_ids_carry_the_install_time() {
    assert_eq!(new_script_id(1700000000123), "script_1700000000123");
    assert_eq!(new_script_id(0), "script_0");
}

#[test]
fn reinstall_keeps_id_and_enabled_flag() {
    let mut old = script("Demo", "ns", "script_5");
    old.enabled = false;
    let parsed = parse_script("// ==UserScript==\n// @name Demo\n// @namespace ns\n// ==/UserScript==\nnew();").unwrap();
    let plan = plan_install(parsed, &vec![old], 99);
    assert_eq!(plan.script.id, "script_5");
    assert!(!plan.script.enabled);
    assert_eq!(plan.script.code, "new();");
    assert_eq!(plan.replaces, Some("script_5".to_string()));
}

#[test]
fn new_install_gets_a_fresh_id() {
    let parsed = parse_script("new();").unwrap();
    let plan = plan_install(parsed, &vec![script("Other", "", "script_1")], 42);
    assert_eq!(plan.script.id, "script_42");
    assert!(plan.script.enabled);
    assert!(plan.replaces.is_none());
}
