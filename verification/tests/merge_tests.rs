use attrs::merge::add;
use attrs::snippet::SyntectSnippet;

fn pair(k: &str, v: &str) -> (String, String) {
    (k.to_string(), v.to_string())
}

#[test]
fn add_appends_in_order_without_overwriting() {
    let mut content = "My heading {#foo .big .wide}".to_string();
    let mut attrs = vec![pair("class", "existing")];
    add(&mut content, &mut attrs);
    assert_eq!(content, "My heading".to_string());
    assert_eq!(
        attrs,
        vec![pair("class", "existing"), pair("id", "foo"), pair("class", "big"), pair("class", "wide")],
    );
}

#[test]
fn add_leaves_node_untouched_on_failure() {
    let mut content = "plain text without annotation".to_string();
    let mut attrs = vec![pair("id", "kept")];
    add(&mut content, &mut attrs);
    assert_eq!(content, "plain text without annotation".to_string());
    assert_eq!(attrs, vec![pair("id", "kept")]);
}

#[test]
fn add_leaves_node_untouched_on_empty_annotation() {
    let mut content = "heading {}".to_string();
    let mut attrs = vec![];
    add(&mut content, &mut attrs);
    assert_eq!(content, "heading {}".to_string());
    assert_eq!(attrs, Vec::<(String, String)>::new());
}

#[test]
fn add_duplicate_keys_are_all_kept() {
    let mut content = "``` {.a .a}".to_string();
    let mut attrs = vec![pair("class", "a")];
    add(&mut content, &mut attrs);
    assert_eq!(content, "```".to_string());
    assert_eq!(attrs, vec![pair("class", "a"), pair("class", "a"), pair("class", "a")]);
}

#[test]
fn snippet_keeps_html() {
    let snippet = SyntectSnippet::new("<span>x</span>".to_string());
    assert_eq!(snippet.html, "<span>x</span>".to_string());
}
