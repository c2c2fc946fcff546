use chrome_launcher::state::list_profiles;
use chrome_launcher::tags::{parse_tags, save_tags, TagMap};
use std::collections::HashMap;

fn map_of(entries: Vec<(&str, Vec<&str>)>) -> TagMap {
    TagMap {
        entries: entries
            .into_iter()
            .map(|(k, v)| (k.to_string(), v.into_iter().map(|t| t.to_string()).collect()))
            .collect(),
    }
}

#[test]
fn written_tags_parse_with_serde_json() {
    let tm = map_of(vec![("Default", vec!["work", "primary"]), ("P1", vec![])]);
    let text = save_tags(&tm);
    let parsed: HashMap<String, Vec<String>> = serde_json::from_str(&text).unwrap();
    let mut expected: HashMap<String, Vec<String>> = HashMap::new();
    expected.insert("Default".to_string(), vec!["work".to_string(), "primary".to_string()]);
    expected.insert("P1".to_string(), vec![]);
    assert_eq!(parsed, expected);
}

#[test]
fn written_form_matches_serde_json_pretty() {
    let tm = map_of(vec![("q\"w", vec!["a\\b", "c\nd", "\u{1}", "ë"])]);
    let mut m: HashMap<String, Vec<String>> = HashMap::new();
    m.insert(
        "q\"w".to_string(),
        vec!["a\\b".to_string(), "c\nd".to_string(), "\u{1}".to_string(), "ë".to_string()],
    );
    assert_eq!(save_tags(&tm), serde_json::to_string_pretty(&m).unwrap());
}

#[test]
fn serde_json_compact_output_parses_here() {
    let mut m: HashMap<String, Vec<String>> = HashMap::new();
    m.insert("a".to_string(), vec!["x".to_string(), "y".to_string()]);
    let text = serde_json::to_string(&m).unwrap();
    let tm = parse_tags(&text).unwrap();
    assert_eq!(tm.entries, map_of(vec![("a", vec!["x", "y"])]).entries);
}

#[test]
fn profile_listing_agrees_with_serde_json_navigation() {
    let state = r#"{
        "extra": {"deep": [1, -2.5e3, null, {"k": "v"}]},
        "profile": {
            "info_cache": {
                "Default": {"name": "Alice", "user_name": "alice@example.com"},
                "Profile 9": {"gaia_id": "123"}
            }
        }
    }"#;
    let ours = list_profiles(state).unwrap();
    let json: serde_json::Value = serde_json::from_str(state).unwrap();
    let cache = json["profile"]["info_cache"].as_object().unwrap();
    assert_eq!(ours.len(), cache.len());
    for (p, (folder, data)) in ours.iter().zip(cache.iter()) {
        assert_eq!(&p.folder, folder);
        assert_eq!(p.name, data["name"].as_str().unwrap_or_default().to_string());
        assert_eq!(p.email, data["user_name"].as_str().map(|s| s.to_string()));
    }
}

#[test]
fn both_reject_malformed_documents() {
    for bad in ["{", "{\"a\":}", "[1,]", "nope", "\"\\ud800\""] {
        assert!(list_profiles(bad).is_err());
        assert!(serde_json::from_str::<serde_json::Value>(bad).is_err());
    }
}
