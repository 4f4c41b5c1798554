use tingfm_radio::gm_api::{gm_storage_lookup, wants_json, xhr_method, xhr_response, GmValue, XhrMethod};
use tingfm_radio::radio::{get_radio_catalog, toggle_favorite, FavoriteChange, RadioCatalog};

#[test]
fn methods_are_matched_in_upper_case() {
    assert_eq!(xhr_method(None), XhrMethod::Get);
    assert_eq!(xhr_method(Some("post".to_string())), XhrMethod::Post);
    assert_eq!(xhr_method(Some("Put".to_string())), XhrMethod::Put);
    assert_eq!(xhr_method(Some("DELETE".to_string())), XhrMethod::Delete);
    assert_eq!(xhr_method(Some("patch".to_string())), XhrMethod::Patch);
    assert_eq!(xhr_method(Some("head".to_string())), XhrMethod::Head);
    assert_eq!(xhr_method(Some("options".to_string())), XhrMethod::Options);
    assert_eq!(xhr_method(Some("optıons".to_string())), XhrMethod::Options);
    assert_eq!(xhr_method(Some("TRACE".to_string())), XhrMethod::Get);
}

#[test]
fn only_json_response_type_is_parsed() {
    assert!(wants_json(&Some("json".to_string())));
    assert!(!wants_json(&Some("JSON".to_string())));
    assert!(!wants_json(&None));
    assert!(!wants_json(&Some("text".to_string())));
}

#[test]
fn response_record() {
    let raw = vec![
        ("content-type".to_string(), Some("text/plain".to_string())),
        ("x-bin".to_string(), None),
        ("set-cookie".to_string(), Some("a=1".to_string())),
        ("set-cookie".to_string(), Some("b=2".to_string())),
    ];
    let r = xhr_response(200, "body".to_string(), &raw, "https://f/".to_string());
    assert_eq!(r.status, 200);
    assert_eq!(r.status_text, "OK");
    assert_eq!(r.response_text, "body");
    assert_eq!(r.final_url, "https://f/");
    assert_eq!(r.ready_state, 4);
    assert_eq!(
        r.response_headers,
        vec![
            ("content-type".to_string(), "text/plain".to_string()),
            ("set-cookie".to_string(), "b=2".to_string())
        ]
    );
    let unknown = xhr_response(599, String::new(), &Vec::new(), String::new());
    assert_eq!(unknown.status_text, "Unknown");
    assert_eq!(xhr_response(404, String::new(), &Vec::new(), String::new()).status_text, "Not Found");
}

#[test]
fn toggling_favorites() {
    assert_eq!(toggle_favorite(true), (FavoriteChange::Remove, false));
    assert_eq!(toggle_favorite(false), (FavoriteChange::Insert, true));
}

#[test]
fn missing_catalog_is_an_error() {
    assert_eq!(get_radio_catalog(None).err().unwrap(), "未找到电台目录");
    let c = RadioCatalog {
        version: "1.0.0".to_string(),
        platform: "TingFM".to_string(),
        updated_at: "2026-08-03T12:00:00Z".to_string(),
        sources: Vec::new(),
    };
    assert_eq!(get_radio_catalog(Some(c)).ok().unwrap().platform, "TingFM");
}

#[test]
fn gm_value_lookup() {
    assert!(matches!(gm_storage_lookup(Some("1".to_string()), Some(2)), GmValue::Stored(v) if v == "1"));
    assert!(matches!(gm_storage_lookup(None, Some(2)), GmValue::Given(2)));
    assert!(matches!(gm_storage_lookup::<i32>(None, None), GmValue::Null));
}
