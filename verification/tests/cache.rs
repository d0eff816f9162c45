use ezcontext::cache::TranslationCache;
use fxhash::FxHashMap;

#[test]
fn new_cache_is_empty() {
    let cache = TranslationCache::new();
    assert!(!cache.contains_key(""));
    assert!(!cache.contains_key("a"));
    assert!(cache.get("a").is_none());
    assert!(cache.as_map().is_empty());
}

#[test]
fn cache_from_map_holds_the_map() {
    let mut map: FxHashMap<String, String> = FxHashMap::default();
    map.insert("日本".to_string(), "일본".to_string());
    map.insert("k".to_string(), "v".to_string());
    let cache = TranslationCache::from_map(map);
    assert_eq!(cache.get("日本").map(|s| s.as_str()), Some("일본"));
    assert_eq!(cache.get("k").map(|s| s.as_str()), Some("v"));
    assert!(cache.contains_key("k"));
    assert!(!cache.contains_key("v"));
    assert_eq!(cache.as_map().len(), 2);
}

#[test]
fn insert_if_absent_never_overwrites() {
    let mut cache = TranslationCache::new();
    assert!(cache.insert_if_absent("k".to_string(), "first".to_string()));
    assert!(!cache.insert_if_absent("k".to_string(), "second".to_string()));
    assert_eq!(cache.get("k").map(|s| s.as_str()), Some("first"));
    assert!(cache.insert_if_absent("".to_string(), "".to_string()));
    assert_eq!(cache.get("").map(|s| s.as_str()), Some(""));
    assert_eq!(cache.as_map().len(), 2);
}

#[test]
fn get_or_compute_runs_compute_once_per_key() {
    let mut cache = TranslationCache::new();
    let mut calls = 0;
    let first = cache.get_or_compute("key", |k| {
        calls += 1;
        format!("<{}>", k)
    });
    assert_eq!(first, "<key>");
    let second = cache.get_or_compute("key", |k| {
        calls += 1;
        format!("[{}]", k)
    });
    assert_eq!(second, "<key>");
    assert_eq!(calls, 1);
    let other = cache.get_or_compute("other", |k| {
        calls += 1;
        k.to_uppercase()
    });
    assert_eq!(other, "OTHER");
    assert_eq!(calls, 2);
    assert_eq!(cache.as_map().len(), 2);
}

#[test]
fn cached_empty_answer_is_kept() {
    let mut cache = TranslationCache::new();
    assert_eq!(cache.get_or_compute("", |_| String::new()), "");
    let mut called = false;
    assert_eq!(
        cache.get_or_compute("", |_| {
            called = true;
            "again".to_string()
        }),
        ""
    );
    assert!(!called);
}

#[test]
fn seeding_sets_the_empty_key() {
    let mut map: FxHashMap<String, String> = FxHashMap::default();
    map.insert(String::new(), "stale".to_string());
    map.insert("k".to_string(), "v".to_string());
    let mut cache = TranslationCache::from_map(map);
    cache.seed_empty();
    assert_eq!(cache.get("").map(|s| s.as_str()), Some(""));
    assert_eq!(cache.get("k").map(|s| s.as_str()), Some("v"));
    assert_eq!(cache.as_map().len(), 2);
}
