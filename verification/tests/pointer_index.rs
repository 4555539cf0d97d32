//! Structural pointers and the path indexer, together: paths the indexer
//! yields resolve back to the nodes that produced them.

use rover::pointer::{PointerError, ValuePointer};
use rover::state::index::Doc;
use rover::value::Value;

fn sample_doc() -> Value {
    Value::Object(vec![
        (
            "a".to_owned(),
            Value::Object(vec![("b".to_owned(), Value::Number(1))]),
        ),
        (
            "c".to_owned(),
            Value::Array(vec![Value::Number(10), Value::Number(20)]),
        ),
    ])
}

#[test]
fn test_pointer_get_object_and_array() {
    let doc = sample_doc();
    let p = ValuePointer::parse("#/a/b").unwrap();
    assert_eq!(Ok(&Value::Number(1)), p.get(&doc));

    let p = ValuePointer::parse("#/c/1").unwrap();
    assert_eq!(Ok(&Value::Number(20)), p.get(&doc));
}

#[test]
fn test_pointer_unescaping() {
    let doc = Value::Object(vec![
        ("x/y".to_owned(), Value::Number(7)),
        ("t~u".to_owned(), Value::Number(8)),
    ]);
    let p = ValuePointer::parse("#/x~1y").unwrap();
    assert_eq!(Ok(&Value::Number(7)), p.get(&doc));
    let p = ValuePointer::parse("#/t~0u").unwrap();
    assert_eq!(Ok(&Value::Number(8)), p.get(&doc));
}

#[test]
fn test_pointer_malformed_escape() {
    assert!(ValuePointer::parse("#/bad~2escape").is_err());
    assert!(ValuePointer::parse("#/trailing~").is_err());
}

#[test]
fn test_pointer_errors() {
    let doc = sample_doc();
    assert_eq!(
        Err(PointerError::KeyNotFound),
        ValuePointer::parse("#/missing").unwrap().get(&doc)
    );
    assert_eq!(
        Err(PointerError::IndexOutOfBounds),
        ValuePointer::parse("#/c/2").unwrap().get(&doc)
    );
    assert_eq!(
        Err(PointerError::NotIndexable),
        ValuePointer::parse("#/a/b/deeper").unwrap().get(&doc)
    );
    assert_eq!(
        Err(PointerError::MalformedIndex),
        ValuePointer::parse("#/c/one").unwrap().get(&doc)
    );
}

#[test]
fn test_pointer_set_replaces_in_place() {
    let mut doc = sample_doc();
    let p = ValuePointer::parse("#/c/0").unwrap();
    assert_eq!(Ok(()), p.set(&mut doc, Value::Number(99)));
    assert_eq!(Ok(&Value::Number(99)), p.get(&doc));
    let other = ValuePointer::parse("#/a/b").unwrap();
    assert_eq!(Ok(&Value::Number(1)), other.get(&doc));

    let missing = ValuePointer::parse("#/nope").unwrap();
    assert_eq!(
        Err(PointerError::KeyNotFound),
        missing.set(&mut doc, Value::Null)
    );
}

#[test]
fn test_index_yields_all_paths() {
    let doc = sample_doc();
    let index = Doc::build_from(&doc);
    assert_eq!("#", index.root.as_str());
    assert_eq!(6, index.adj_list.len());
    for path in ["#", "#/a", "#/a/b", "#/c", "#/c/0", "#/c/1"] {
        assert!(index.adj_list.contains_key(path));
    }
}

#[test]
fn test_index_paths_resolve_round_trip() {
    let doc = sample_doc();
    let index = Doc::build_from(&doc);
    let mut i = 0;
    while i < index.adj_list.len() {
        let path = index.adj_list.key_at(i).clone();
        let p = ValuePointer::parse(path.as_str()).unwrap();
        assert!(p.get(&doc).is_ok());
        i += 1;
    }
}

#[test]
fn test_index_follows_ref_alias() {
    let doc = Value::Object(vec![
        (
            "a".to_owned(),
            Value::Object(vec![("$ref".to_owned(), Value::String("#/b".to_owned()))]),
        ),
        ("b".to_owned(), Value::Number(5)),
    ]);
    let index = Doc::build_from(&doc);
    let children = index.adj_list.get("#/a").unwrap();
    assert_eq!(1, children.len());
    assert_eq!("#/b", children[0].as_str());
}

#[test]
fn test_index_ref_cycle_terminates() {
    let doc = Value::Object(vec![
        (
            "a".to_owned(),
            Value::Object(vec![("$ref".to_owned(), Value::String("#/b".to_owned()))]),
        ),
        (
            "b".to_owned(),
            Value::Object(vec![("$ref".to_owned(), Value::String("#/a".to_owned()))]),
        ),
    ]);
    let index = Doc::build_from(&doc);
    assert!(index.adj_list.contains_key("#/a"));
    assert!(index.adj_list.contains_key("#/b"));
}

#[test]
fn test_index_escapes_keys() {
    let doc = Value::Object(vec![
        ("x/y".to_owned(), Value::Number(1)),
        ("t~u".to_owned(), Value::Number(2)),
    ]);
    let index = Doc::build_from(&doc);
    assert!(index.adj_list.contains_key("#/x~1y"));
    assert!(index.adj_list.contains_key("#/t~0u"));
    let p = ValuePointer::parse("#/t~0u").unwrap();
    assert_eq!(Ok(&Value::Number(2)), p.get(&doc));
}
