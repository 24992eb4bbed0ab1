use jom::get_nested_value;
use jom::Json;

fn chars(s: &str) -> Vec<char> {
    s.chars().collect()
}

fn sample() -> Json {
    Json::Obj(vec![
        (chars("name"), Json::Str(chars("John Doe"))),
        (
            chars("skills"),
            Json::Obj(vec![(
                chars("languages"),
                Json::Arr(vec![Json::Str(chars("Rust")), Json::Str(chars("Python"))]),
            )]),
        ),
        (
            chars("phones"),
            Json::Obj(vec![
                (chars("0"), Json::Str(chars("+44 1234567"))),
                (chars("1"), Json::Str(chars("+44 2345678"))),
            ]),
        ),
    ])
}

#[test]
fn top_level_lookup() {
    let doc = sample();
    let v = get_nested_value(&doc, "name").unwrap();
    assert!(matches!(v, Json::Str(s) if s.iter().collect::<String>() == "John Doe"));
}

#[test]
fn nested_lookup() {
    let doc = sample();
    let v = get_nested_value(&doc, "skills.languages.1").unwrap();
    assert!(matches!(v, Json::Str(s) if s.iter().collect::<String>() == "Python"));
}

#[test]
fn numeric_key_on_mapping() {
    let doc = sample();
    let v = get_nested_value(&doc, "phones.1").unwrap();
    assert!(matches!(v, Json::Str(s) if s.iter().collect::<String>() == "+44 2345678"));
}

#[test]
fn missing_key_is_none() {
    let doc = sample();
    assert!(get_nested_value(&doc, "nonexistent").is_none());
    assert!(get_nested_value(&doc, "skills.tools").is_none());
    assert!(get_nested_value(&doc, "name.first").is_none());
}

#[test]
fn non_numeric_segment_on_array_is_none() {
    let doc = sample();
    assert!(get_nested_value(&doc, "skills.languages.first").is_none());
    assert!(get_nested_value(&doc, "skills.languages.2").is_none());
}
