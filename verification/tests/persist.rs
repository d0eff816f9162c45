use ezcontext::cache::TranslationCache;
use ezcontext::dict::EzDict;
use fxhash::FxHashMap;

fn pairs(dict: &EzDict) -> (Vec<(String, String)>, Vec<(String, String)>) {
    (dict.before_entries(), dict.after_entries())
}

#[test]
fn cache_survives_being_written_and_read() {
    let mut cache = TranslationCache::new();
    cache.seed_empty();
    cache.insert_if_absent("日本語".to_string(), "일본어".to_string());
    cache.insert_if_absent("xfooy日本語z".to_string(), "xbary일본어z".to_string());
    cache.insert_if_absent("あ".to_string(), "".to_string());

    let written = rmp_serde::to_vec(cache.as_map()).unwrap();
    let read: FxHashMap<String, String> = rmp_serde::from_slice(&written).unwrap();
    let loaded = TranslationCache::from_map(read);

    assert_eq!(loaded.as_map(), cache.as_map());
    assert_eq!(loaded.as_map().len(), 4);
    assert_eq!(loaded.get("日本語").map(|s| s.as_str()), Some("일본어"));
    assert_eq!(loaded.get("").map(|s| s.as_str()), Some(""));
    assert_eq!(loaded.get("あ").map(|s| s.as_str()), Some(""));
    assert!(!loaded.contains_key("missing"));
}

#[test]
fn dictionary_survives_being_written_and_read() {
    for sort in [false, true] {
        let mut dict = EzDict::new(sort);
        for (k, v) in [("丙", "c"), ("甲", "a"), ("乙", "b"), ("甲", "again"), ("z", "")] {
            dict.add_before_rule(k.into(), v.into()).unwrap();
        }
        dict.add_after_rule("일".into(), "1".into()).unwrap();

        let (before, after) = pairs(&dict);
        let written = serde_json::to_string(&(dict.sort_enabled(), before, after)).unwrap();
        let (read_sort, read_before, read_after): (bool, Vec<(String, String)>, Vec<(String, String)>) =
            serde_json::from_str(&written).unwrap();
        let loaded = EzDict::from_entries(read_sort, read_before, read_after).unwrap();

        assert_eq!(loaded.sort_enabled(), dict.sort_enabled());
        assert_eq!(pairs(&loaded), pairs(&dict));
    }
}
