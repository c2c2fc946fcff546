use chrome_launcher::tags::{load_tags, parse_tags, save_tags, TagMap};

fn map_of(entries: Vec<(&str, Vec<&str>)>) -> TagMap {
    TagMap {
        entries: entries
            .into_iter()
            .map(|(k, v)| (k.to_string(), v.into_iter().map(|t| t.to_string()).collect()))
            .collect(),
    }
}

#[test]
fn round_trip_example() {
    let tm = map_of(vec![("Default", vec!["work", "primary"])]);
    let text = save_tags(&tm);
    let back = parse_tags(&text).unwrap();
    assert_eq!(back.entries, tm.entries);
}

#[test]
fn round_trip_empty_mapping() {
    let tm = TagMap::new();
    let text = save_tags(&tm);
    assert_eq!(text, "{}");
    let back = parse_tags(&text).unwrap();
    assert_eq!(back.entries.len(), 0);
}

#[test]
fn round_trip_many_entries_keeps_order() {
    let tm = map_of(vec![
        ("Default", vec![]),
        ("Profile 1", vec!["home"]),
        ("Profile 2", vec!["work", "admin", "x"]),
    ]);
    let back = parse_tags(&save_tags(&tm)).unwrap();
    assert_eq!(back.entries, tm.entries);
}

#[test]
fn round_trip_with_escaped_characters() {
    let tm = map_of(vec![(
        "a\"b\\c",
        vec!["line\nbreak", "tab\there", "bell\u{07}", "quote\"", "unit\u{1f}"],
    )]);
    let back = parse_tags(&save_tags(&tm)).unwrap();
    assert_eq!(back.entries, tm.entries);
}

#[test]
fn written_form_is_pretty_printed() {
    let tm = map_of(vec![("Default", vec!["work", "primary"])]);
    assert_eq!(
        save_tags(&tm),
        "{\n  \"Default\": [\n    \"work\",\n    \"primary\"\n  ]\n}"
    );
}

#[test]
fn load_of_missing_file_is_empty_mapping() {
    let tm = load_tags(None).unwrap();
    assert_eq!(tm.entries.len(), 0);
}

#[test]
fn load_of_existing_content_parses_it() {
    let tm = load_tags(Some("{\"a\": [\"x\"]}")).unwrap();
    assert_eq!(tm.entries, map_of(vec![("a", vec!["x"])]).entries);
}

#[test]
fn whitespace_is_tolerated() {
    let tm = parse_tags(" { \"a\" : [ \"x\" ,\n \"y\" ] } \n").unwrap();
    assert_eq!(tm.entries, map_of(vec![("a", vec!["x", "y"])]).entries);
}

#[test]
fn empty_tag_list_parses() {
    let tm = parse_tags("{\"a\": []}").unwrap();
    assert_eq!(tm.entries, map_of(vec![("a", vec![])]).entries);
}

#[test]
fn duplicate_keys_keep_last_value_at_first_position() {
    let tm = parse_tags("{\"a\": [\"1\"], \"b\": [\"2\"], \"a\": [\"3\"]}").unwrap();
    assert_eq!(tm.entries, map_of(vec![("a", vec!["3"]), ("b", vec!["2"])]).entries);
}

#[test]
fn tags_non_json_is_parse_error() {
    assert!(parse_tags("not json").is_err());
}

#[test]
fn number_value_is_parse_error() {
    assert!(parse_tags("{\"a\": 1}").is_err());
}

#[test]
fn string_value_is_parse_error() {
    assert!(parse_tags("{\"a\": \"x\"}").is_err());
}

#[test]
fn nested_array_value_is_parse_error() {
    assert!(parse_tags("{\"a\": [[\"x\"]]}").is_err());
}

#[test]
fn top_level_array_is_parse_error() {
    assert!(parse_tags("[\"a\"]").is_err());
}

#[test]
fn trailing_comma_is_parse_error() {
    assert!(parse_tags("{\"a\": [\"x\"],}").is_err());
}

#[test]
fn tags_trailing_garbage_is_parse_error() {
    assert!(parse_tags("{} {}").is_err());
}
