use attrs::scanner::parse_attrs;

fn pair(k: &str, v: &str) -> (String, String) {
    (k.to_string(), v.to_string())
}

#[test]
fn parse_attrs_id() {
    assert_eq!(parse_attrs("{#foo}"), ("".to_string(), vec![pair("id", "foo")]));
}

#[test]
fn parse_attrs_class() {
    assert_eq!(parse_attrs("{.haskell}"), ("".to_string(), vec![pair("class", "haskell")]));
}

#[test]
fn parse_attrs_key_value() {
    assert_eq!(parse_attrs("{key=val}"), ("".to_string(), vec![pair("key", "val")]));
}

#[test]
fn parse_attrs_key_value_quoted() {
    assert_eq!(parse_attrs(r#"{key2="val 2"}"#), ("".to_string(), vec![pair("key2", "val 2")]));
    assert_eq!(parse_attrs(r#"{key2="val\"2"}"#), ("".to_string(), vec![pair("key2", "val\"2")]));
}

#[test]
fn parse_attrs_fail() {
    assert_eq!(parse_attrs("{#foo"), ("{#foo".to_string(), vec![]));
    assert_eq!(parse_attrs("{}"), ("{}".to_string(), vec![]));
    assert_eq!(parse_attrs("#foo}"), ("#foo}".to_string(), vec![]));
    assert_eq!(parse_attrs(r#"val" #foo}"#), (r#"val" #foo}"#.to_string(), vec![]));
    assert_eq!(parse_attrs(r#""val" #foo}"#), (r#""val" #foo}"#.to_string(), vec![]));
    assert_eq!(parse_attrs("{val #foo}"), ("{val #foo}".to_string(), vec![]));
    assert_eq!(parse_attrs("{ val #foo}"), ("{ val #foo}".to_string(), vec![]));
    assert_eq!(parse_attrs("key=val #foo}"), ("key=val #foo}".to_string(), vec![]));
}

#[test]
fn parse_attrs_multiple() {
    assert_eq!(
        parse_attrs(r#"{#mycode .haskell .numberLines startFrom="100"}"#),
        (
            "".to_string(),
            vec![
                pair("id", "mycode"),
                pair("class", "haskell"),
                pair("class", "numberLines"),
                pair("startFrom", "100"),
            ],
        ),
    );

    assert_eq!(
        parse_attrs(r#"{#id .class key=val key2="val 2"}"#),
        (
            "".to_string(),
            vec![pair("id", "id"), pair("class", "class"), pair("key", "val"), pair("key2", "val 2")],
        ),
    );
}

#[test]
fn parse_attrs_trims_preceding_whitespace() {
    assert_eq!(parse_attrs("My heading   {#foo}"), ("My heading".to_string(), vec![pair("id", "foo")]));
    assert_eq!(parse_attrs("rust {.numberLines}"), ("rust".to_string(), vec![pair("class", "numberLines")]));
}

#[test]
fn parse_attrs_empty_and_marker_only() {
    assert_eq!(parse_attrs(""), ("".to_string(), vec![]));
    assert_eq!(parse_attrs("{#}"), ("{#}".to_string(), vec![]));
    assert_eq!(parse_attrs("}"), ("}".to_string(), vec![]));
}

#[test]
fn parse_attrs_escape_at_value_start() {
    assert_eq!(parse_attrs(r#"{k="\"x"}"#), ("".to_string(), vec![pair("k", "\"x")]));
}

#[test]
fn parse_attrs_quoted_keeps_whitespace() {
    assert_eq!(
        parse_attrs("{note=\"a\tb  c\"}"),
        ("".to_string(), vec![pair("note", "a\tb  c")]),
    );
}

#[test]
fn parse_attrs_multibyte_characters() {
    assert_eq!(
        parse_attrs("caf\u{e9} menu {#d\u{e9}jeuner}"),
        ("caf\u{e9} menu".to_string(), vec![pair("id", "d\u{e9}jeuner")]),
    );
}

#[test]
fn parse_attrs_quoted_value_must_follow_equals() {
    assert_eq!(parse_attrs(r#"{"val"}"#), (r#"{"val"}"#.to_string(), vec![]));
}
