use chrome_launcher::state::list_profiles;

#[test]
fn single_entry_with_name_and_email() {
    let state =
        r#"{"profile":{"info_cache":{"Default":{"name":"Alice","user_name":"alice@example.com"}}}}"#;
    let ps = list_profiles(state).unwrap();
    assert_eq!(ps.len(), 1);
    assert_eq!(ps[0].folder, "Default");
    assert_eq!(ps[0].name, "Alice");
    assert_eq!(ps[0].email, Some("alice@example.com".to_string()));
}

#[test]
fn missing_info_cache_is_empty_not_error() {
    let ps = list_profiles(r#"{"profile":{}}"#).unwrap();
    assert_eq!(ps.len(), 0);
}

#[test]
fn missing_profile_key_is_empty() {
    let ps = list_profiles(r#"{"other":1}"#).unwrap();
    assert_eq!(ps.len(), 0);
}

#[test]
fn empty_object_is_empty() {
    let ps = list_profiles("{}").unwrap();
    assert_eq!(ps.len(), 0);
}

#[test]
fn top_level_array_is_empty() {
    let ps = list_profiles("[1, 2, 3]").unwrap();
    assert_eq!(ps.len(), 0);
}

#[test]
fn non_json_is_parse_error() {
    assert!(list_profiles("not json").is_err());
}

#[test]
fn trailing_garbage_is_parse_error() {
    assert!(list_profiles("{} x").is_err());
}

#[test]
fn unterminated_string_is_parse_error() {
    assert!(list_profiles(r#"{"profile": "oops"#).is_err());
}

#[test]
fn entry_count_and_order_match_file() {
    let state = r#"{"profile":{"info_cache":{
        "Default":{"name":"A"},
        "Profile 1":{"name":"B","user_name":"b@x.org"},
        "Profile 2":{}
    }}}"#;
    let ps = list_profiles(state).unwrap();
    assert_eq!(ps.len(), 3);
    assert_eq!(ps[0].folder, "Default");
    assert_eq!(ps[1].folder, "Profile 1");
    assert_eq!(ps[2].folder, "Profile 2");
    assert_eq!(ps[1].email, Some("b@x.org".to_string()));
    assert_eq!(ps[2].name, "");
    assert_eq!(ps[2].email, None);
}

#[test]
fn name_of_wrong_type_defaults_to_empty() {
    let state = r#"{"profile":{"info_cache":{"Default":{"name":5,"user_name":true}}}}"#;
    let ps = list_profiles(state).unwrap();
    assert_eq!(ps.len(), 1);
    assert_eq!(ps[0].name, "");
    assert_eq!(ps[0].email, None);
}

#[test]
fn entry_value_not_an_object() {
    let state = r#"{"profile":{"info_cache":{"Default":42}}}"#;
    let ps = list_profiles(state).unwrap();
    assert_eq!(ps.len(), 1);
    assert_eq!(ps[0].folder, "Default");
    assert_eq!(ps[0].name, "");
    assert_eq!(ps[0].email, None);
}

#[test]
fn other_keys_and_value_kinds_are_skipped() {
    let state = r#"{
        "browser": {"window": [1, 2.5, -3e2, true, null, "x"]},
        "profile": {
            "last_used": "Default",
            "info_cache": {"Default": {"avatar": 7, "name": "Zoë"}}
        },
        "variations": [[{"a": []}]]
    }"#;
    let ps = list_profiles(state).unwrap();
    assert_eq!(ps.len(), 1);
    assert_eq!(ps[0].name, "Zo\u{eb}");
}

#[test]
fn escaped_characters_are_decoded() {
    let state = r#"{"profile":{"info_cache":{"A\tB":{"name":"line\nbreak A"}}}}"#;
    let ps = list_profiles(state).unwrap();
    assert_eq!(ps[0].folder, "A\tB");
    assert_eq!(ps[0].name, "line\nbreak A");
}

#[test]
fn duplicate_folder_keys_keep_last_value() {
    let state = r#"{"profile":{"info_cache":{"D":{"name":"first"},"D":{"name":"second"}}}}"#;
    let ps = list_profiles(state).unwrap();
    assert_eq!(ps.len(), 1);
    assert_eq!(ps[0].name, "second");
}

#[test]
fn surrogate_escape_is_rejected() {
    assert!(list_profiles(r#"{"a":"\ud800"}"#).is_err());
}

#[test]
fn raw_control_character_is_rejected() {
    assert!(list_profiles("{\"a\":\"x\u{01}y\"}").is_err());
}
