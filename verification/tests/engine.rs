//! The scoring combinators, the layered cache and the ranked search.

use rover::search::algs::score;
use rover::search::parser::Pattern;
use rover::search::PatternCache;
use rover::state::index::Doc;
use rover::string_map::StringMap;
use rover::value::Value;

fn sample_doc() -> Value {
    Value::Object(vec![
        (
            "a".to_owned(),
            Value::Object(vec![("b".to_owned(), Value::Number(1))]),
        ),
        (
            "c".to_owned(),
            Value::Array(vec![Value::Number(10), Value::Number(20)]),
        ),
    ])
}

fn caches_for(doc: &Value) -> (PatternCache, PatternCache) {
    let index = Doc::build_from(doc);
    let mut core = StringMap::new();
    let mut deref_core = StringMap::new();
    let mut i = 0;
    while i < index.adj_list.len() {
        core.insert(index.adj_list.key_at(i).clone(), 0);
        deref_core.insert(index.adj_list.key_at(i).clone(), 0);
        i += 1;
    }
    let mut cache = PatternCache::new(100);
    cache.reset(core);
    let mut deref_cache = PatternCache::new(100);
    deref_cache.reset(deref_core);
    (cache, deref_cache)
}

#[test]
fn test_exact_leaf_scores() {
    let doc = sample_doc();
    let (mut cache, mut deref_cache) = caches_for(&doc);
    let pattern = "'a".parse::<Pattern>().unwrap();
    let row = score(&pattern, &mut cache, &mut deref_cache, &doc);
    assert_eq!(2, row.len());
    assert_eq!(Some(&16), row.get("#/a"));
    assert_eq!(Some(&16), row.get("#/a/b"));
    assert_eq!(None, row.get("#/c"));
}

#[test]
fn test_and_sums_scores() {
    let doc = sample_doc();
    let (mut cache, mut deref_cache) = caches_for(&doc);
    let pattern = "'a 'b".parse::<Pattern>().unwrap();
    let row = score(&pattern, &mut cache, &mut deref_cache, &doc);
    assert_eq!(1, row.len());
    assert_eq!(Some(&32), row.get("#/a/b"));
}

#[test]
fn test_or_takes_maximum() {
    let doc = sample_doc();
    let (mut cache, mut deref_cache) = caches_for(&doc);
    let pattern = "'a | 'a/b".parse::<Pattern>().unwrap();
    let row = score(&pattern, &mut cache, &mut deref_cache, &doc);
    assert_eq!(2, row.len());
    assert_eq!(Some(&16), row.get("#/a"));
    assert_eq!(Some(&48), row.get("#/a/b"));
}

#[test]
fn test_negation_complements_universe() {
    let doc = sample_doc();
    let (mut cache, mut deref_cache) = caches_for(&doc);
    let pattern = "!'a".parse::<Pattern>().unwrap();
    let row = score(&pattern, &mut cache, &mut deref_cache, &doc);
    assert_eq!(4, row.len());
    for path in ["#", "#/c", "#/c/0", "#/c/1"] {
        assert_eq!(Some(&16), row.get(path));
    }
    assert_eq!(None, row.get("#/a"));
    assert_eq!(None, row.get("#/a/b"));
}

#[test]
fn test_cache_reuse_gives_same_answer() {
    let doc = sample_doc();

    let (mut cache, mut deref_cache) = caches_for(&doc);
    let warm = "'a".parse::<Pattern>().unwrap();
    let _ = score(&warm, &mut cache, &mut deref_cache, &doc);
    let pattern = "'ab".parse::<Pattern>().unwrap();
    let warmed = score(&pattern, &mut cache, &mut deref_cache, &doc);

    let (mut cold_cache, mut cold_deref) = caches_for(&doc);
    let cold = score(&pattern, &mut cold_cache, &mut cold_deref, &doc);

    assert_eq!(warmed.len(), cold.len());
    let mut i = 0;
    while i < warmed.len() {
        let key = warmed.key_at(i).clone();
        assert_eq!(cold.get(key.as_str()), warmed.get(key.as_str()));
        i += 1;
    }
}

#[test]
fn test_deref_scores_values() {
    let doc = sample_doc();
    let (mut cache, mut deref_cache) = caches_for(&doc);
    let pattern = "*'10".parse::<Pattern>().unwrap();
    let row = score(&pattern, &mut cache, &mut deref_cache, &doc);
    assert_eq!(Some(&32), row.get("#/c/0"));
    assert_eq!(None, row.get("#/c/1"));
}

#[test]
fn test_search_end_to_end() {
    let doc = sample_doc();
    let (mut cache, mut deref_cache) = caches_for(&doc);
    let found = rover::search::search(&doc, &mut cache, &mut deref_cache, "b");
    assert_eq!(vec!["#/a/b".to_owned()], found);

    let found = rover::search::search(&doc, &mut cache, &mut deref_cache, "^#/c");
    assert_eq!(3, found.len());
    for path in ["#/c", "#/c/0", "#/c/1"] {
        assert!(found.contains(&path.to_owned()));
    }
}

#[test]
fn test_search_ranks_higher_scores_first() {
    let doc = Value::Object(vec![
        ("ab".to_owned(), Value::Null),
        ("a".to_owned(), Value::Null),
    ]);
    let (mut cache, mut deref_cache) = caches_for(&doc);
    let found = rover::search::search(&doc, &mut cache, &mut deref_cache, "ab");
    assert_eq!(vec!["#/ab".to_owned()], found);

    let found = rover::search::search(&doc, &mut cache, &mut deref_cache, "'a");
    assert_eq!(2, found.len());
}

#[test]
fn test_fuzzy_is_case_insensitive() {
    let doc = Value::Object(vec![("Hello".to_owned(), Value::Null)]);
    let (mut cache, mut deref_cache) = caches_for(&doc);
    let found = rover::search::search(&doc, &mut cache, &mut deref_cache, "hello");
    assert_eq!(vec!["#/Hello".to_owned()], found);
}

#[test]
fn test_warm_fuzzy_cache_keeps_case_folding() {
    let doc = Value::Object(vec![("ab".to_owned(), Value::Null)]);

    let (mut cache, mut deref_cache) = caches_for(&doc);
    let warm = rover::search::search(&doc, &mut cache, &mut deref_cache, "B");
    assert_eq!(vec!["#/ab".to_owned()], warm);
    let warmed = rover::search::search(&doc, &mut cache, &mut deref_cache, "aB");
    assert_eq!(vec!["#/ab".to_owned()], warmed);

    let (mut cold_cache, mut cold_deref) = caches_for(&doc);
    let cold = rover::search::search(&doc, &mut cold_cache, &mut cold_deref, "aB");
    assert_eq!(cold, warmed);
}

#[test]
fn test_empty_query_matches_nothing() {
    let doc = sample_doc();
    let (mut cache, mut deref_cache) = caches_for(&doc);
    let found = rover::search::search(&doc, &mut cache, &mut deref_cache, "");
    assert_eq!(0, found.len());
}
