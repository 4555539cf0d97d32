//! The pretty renderer and the legacy filter over an indexed document.

use rover::render::render_pretty;
use rover::scoring::filter;
use rover::state::index::Doc;
use rover::value::Value;

fn sample_doc() -> Value {
    Value::Object(vec![
        (
            "a".to_owned(),
            Value::Object(vec![("b".to_owned(), Value::Number(1))]),
        ),
        (
            "c".to_owned(),
            Value::Array(vec![Value::Number(10), Value::Number(20)]),
        ),
    ])
}

#[test]
fn test_render_pretty_shape() {
    let doc = sample_doc();
    let expected = "{\n  \"a\": {\n    \"b\": 1\n  },\n  \"c\": [\n    10,\n    20\n  ]\n}";
    assert_eq!(expected, render_pretty(&doc).as_str());
}

#[test]
fn test_render_matches_serde_pretty() {
    let doc = sample_doc();

    let mut inner = serde_json::Map::new();
    inner.insert("b".to_owned(), serde_json::Value::from(1));
    let mut top = serde_json::Map::new();
    top.insert("a".to_owned(), serde_json::Value::Object(inner));
    top.insert(
        "c".to_owned(),
        serde_json::Value::Array(vec![
            serde_json::Value::from(10),
            serde_json::Value::from(20),
        ]),
    );
    let reference = serde_json::Value::Object(top);

    assert_eq!(
        serde_json::to_string_pretty(&reference).unwrap(),
        render_pretty(&doc)
    );
}

#[test]
fn test_render_escapes_strings() {
    let doc = Value::String("a\"b\\c\nd".to_owned());
    assert_eq!("\"a\\\"b\\\\c\\nd\"", render_pretty(&doc).as_str());

    let reference = serde_json::Value::String("a\"b\\c\nd".to_owned());
    assert_eq!(
        serde_json::to_string_pretty(&reference).unwrap(),
        render_pretty(&doc)
    );
}

#[test]
fn test_filter_scores_paths_and_leaf_values() {
    let doc = sample_doc();
    let index = Doc::build_from(&doc);

    let found = filter(&doc, &index.adj_list, "b");
    assert_eq!(vec!["#/a/b".to_owned()], found);

    let found = filter(&doc, &index.adj_list, "10");
    assert_eq!(vec!["#/c/0".to_owned()], found);
}
