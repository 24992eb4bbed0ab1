use jom::json_to_markdown;

#[test]
fn test_json_to_markdown() {
    // JSON data example
    let json_data = r#"
            {
                "name": "John Doe",
                "age": 43,
                "contact": ["+44 1234567", "+44 2345678"]
            }"#;

    // markdown example
    let markdown = r#"
            # {name}
            ## {age}
            ### Contact Details
            ...{contact}
        "#;

    let rendered = json_to_markdown(json_data, markdown).unwrap();

    // Ensure the output contains the expected values.
    assert!(rendered.contains("John Doe"));
    assert!(rendered.contains("43"));
    assert!(rendered.contains("+44 1234567"));
    assert!(rendered.contains("+44 2345678"));
}

#[test]
fn round_trip_scalar() {
    let out = json_to_markdown(r#"{"name": "John Doe"}"#, "{name}").unwrap();
    assert_eq!(out, "John Doe");
}

#[test]
fn sequence_spread() {
    let out =
        json_to_markdown(r#"{"contact": ["+44 1234567", "+44 2345678"]}"#, "...{contact}").unwrap();
    assert_eq!(out, "- +44 1234567\n- +44 2345678\n");
}

#[test]
fn mapping_spread_by_keys() {
    let out = json_to_markdown(
        r#"{"phones": {"0": "+44 1234567", "1": "+44 2345678"}}"#,
        "- {phones.0}\n- {phones.1}",
    )
    .unwrap();
    assert_eq!(out, "- +44 1234567\n- +44 2345678");
}

#[test]
fn mapping_spread_block() {
    let out = json_to_markdown(
        r#"{"phones": {"home": "+44 1234567", "work": "+44 2345678"}}"#,
        "...{phones}",
    )
    .unwrap();
    assert_eq!(out, "- home: +44 1234567\n- work: +44 2345678\n");
}

#[test]
fn nested_path_resolution() {
    let out = json_to_markdown(
        r#"{"skills": {"languages": ["Rust","Python"]}}"#,
        "...{skills.languages}",
    )
    .unwrap();
    assert_eq!(out, "- Rust\n- Python\n");
}

#[test]
fn missing_top_level_key() {
    let out = json_to_markdown(r#"{"age": 43}"#, "{nonexistent}").unwrap();
    assert_eq!(out, "{nonexistent}");
}

#[test]
fn missing_spread_key_left_alone() {
    let out = json_to_markdown(r#"{"age": 43}"#, "before ...{nope} after").unwrap();
    assert_eq!(out, "before ...{nope} after");
}

#[test]
fn decode_failure() {
    let r = json_to_markdown(r#"{"name": "#, "{name}");
    assert!(r.is_err());
}

#[test]
fn deterministic_output() {
    let data = r#"{"name": "John Doe", "xs": [1, 2, 3]}"#;
    let tmpl = "# {name}\n...{xs}\n{name} {missing}";
    let a = json_to_markdown(data, tmpl).unwrap();
    let b = json_to_markdown(data, tmpl).unwrap();
    assert_eq!(a, b);
}

#[test]
fn number_bool_null_scalars() {
    let data = r#"{"age": 43, "ok": true, "off": false, "gone": null}"#;
    let out = json_to_markdown(data, "{age}|{ok}|{off}|{gone}").unwrap();
    assert_eq!(out, "43|true|false|null");
}

#[test]
fn spread_of_scalar_is_empty() {
    let out = json_to_markdown(r#"{"age": 43}"#, "[...{age}]").unwrap();
    assert_eq!(out, "[]");
}

#[test]
fn spread_of_null_is_empty() {
    let out = json_to_markdown(r#"{"gone": null}"#, "x...{gone}y").unwrap();
    assert_eq!(out, "xy");
}

#[test]
fn array_indexed_by_dotted_segment() {
    let out = json_to_markdown(
        r#"{"contact": ["+44 1234567", "+44 2345678"]}"#,
        "{contact.0} / {contact.1}",
    )
    .unwrap();
    assert_eq!(out, "+44 1234567 / +44 2345678");
}

#[test]
fn array_index_out_of_range_left_alone() {
    let out = json_to_markdown(r#"{"contact": ["+44 1234567"]}"#, "{contact.1}").unwrap();
    assert_eq!(out, "{contact.1}");
}

#[test]
fn container_as_scalar_renders_structural_text() {
    let out =
        json_to_markdown(r#"{"skills": {"languages": ["Rust","Python"]}}"#, "{skills}").unwrap();
    assert_eq!(out, "{languages:[Rust,Python]}");
}

#[test]
fn quotes_are_stripped_from_values() {
    let out = json_to_markdown(r#"{"q": "say \"hi\""}"#, "{q}").unwrap();
    assert_eq!(out, "say \\hi\\");
}

#[test]
fn numbers_spread_as_lines() {
    let out = json_to_markdown(r#"{"xs": [1, 2, 3]}"#, "...{xs}").unwrap();
    assert_eq!(out, "- 1\n- 2\n- 3\n");
}

#[test]
fn path_through_non_container_misses() {
    let out = json_to_markdown(r#"{"name": "John"}"#, "{name.first}").unwrap();
    assert_eq!(out, "{name.first}");
}

#[test]
fn mapping_order_is_kept() {
    let out = json_to_markdown(r#"{"m": {"b": 2, "a": 1}}"#, "...{m}").unwrap();
    assert_eq!(out, "- b: 2\n- a: 1\n");
}

#[test]
fn empty_template() {
    let out = json_to_markdown(r#"{"a": 1}"#, "").unwrap();
    assert_eq!(out, "");
}

#[test]
fn empty_braces_are_not_a_marker() {
    let out = json_to_markdown(r#"{"a": 1}"#, "{} {a}").unwrap();
    assert_eq!(out, "{} 1");
}

#[test]
fn two_dots_do_not_make_a_spread() {
    let out = json_to_markdown(r#"{"xs": [1]}"#, "..{xs}").unwrap();
    assert_eq!(out, "..[1]");
}

#[test]
fn four_dots_spread_keeps_first_dot() {
    let out = json_to_markdown(r#"{"xs": [1]}"#, "....{xs}").unwrap();
    assert_eq!(out, ".- 1\n");
}

#[test]
fn newline_in_string_renders_escaped() {
    let out = json_to_markdown(r#"{"s": "a\nb"}"#, "{s}").unwrap();
    assert_eq!(out, "a\\nb");
}

#[test]
fn control_char_renders_as_hex_escape() {
    let out = json_to_markdown("{\"s\": \"x\\u0001y\"}", "{s}").unwrap();
    assert_eq!(out, "x\\u0001y");
}
