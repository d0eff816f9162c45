use ezcontext::dict::{entries_of, rules_from_entries, EzDict, EzDictItem};
use ezcontext::error::Error;
use ezcontext::order::key_precedes;
use ezcontext::text::replace_occurrences;

fn pairs(dict_rules: &Vec<EzDictItem>) -> Vec<(String, String)> {
    dict_rules.iter().map(|r| (r.key().to_string(), r.value().to_string())).collect()
}

fn pair(key: &str, value: &str) -> (String, String) {
    (key.to_string(), value.to_string())
}

#[test]
fn dict_item_test() {
    let item = EzDictItem::new("123".into(), "abc".into()).unwrap();
    let mut foo = "123def".into();
    item.apply(&mut foo);
    assert_eq!(foo, "abcdef");
}

#[test]
fn dict_item_empty_value_test() {
    let item = EzDictItem::new("123".into(), "".into()).unwrap();
    let mut foo = "123def".into();
    item.apply(&mut foo);
    assert_eq!(foo, "def");
}

#[test]
fn dict_item_eq_kv_test() {
    let item = EzDictItem::new("123".into(), "123".into()).unwrap();
    let mut foo = "123def".into();
    item.apply(&mut foo);
    assert_eq!(foo, "123def");
}

#[test]
fn dict_item_accessors() {
    let item = EzDictItem::new("key".into(), "value".into()).unwrap();
    assert_eq!(item.key(), "key");
    assert_eq!(item.value(), "value");
}

#[test]
#[should_panic]
fn dict_item_empty_key_test() {
    let _item = EzDictItem::new("".into(), "123".into()).unwrap();
}

#[test]
fn dict_item_new_refuses_empty_pattern() {
    assert!(matches!(EzDictItem::new("".into(), "123".into()), Err(Error::InvalidRule)));
    assert!(matches!(EzDictItem::new("".into(), "".into()), Err(Error::InvalidRule)));
    let made = EzDictItem::new("1".into(), "".into()).unwrap();
    assert_eq!(made.key(), "1");
    assert_eq!(made.value(), "");
    let same = EzDictItem::new("k".into(), "k".into()).unwrap();
    assert_eq!(same.key(), same.value());
}

#[test]
fn replacement_that_contains_its_pattern_is_not_replaced_again() {
    let item = EzDictItem::new("a".into(), "aa".into()).unwrap();
    let mut text = String::from("aaa");
    item.apply(&mut text);
    assert_eq!(text, "aaaaaa");

    let mut text = String::from("banana");
    item.apply(&mut text);
    assert_eq!(text, "baanaanaa");
}

#[test]
fn occurrences_do_not_overlap() {
    assert_eq!(replace_occurrences("aaaa", "aa", "b"), "bb");
    assert_eq!(replace_occurrences("aaa", "aa", "b"), "ba");
    assert_eq!(replace_occurrences("abababa", "aba", "X"), "XbX");
}

#[test]
fn replace_keeps_text_without_occurrence() {
    assert_eq!(replace_occurrences("hello", "xyz", "q"), "hello");
    assert_eq!(replace_occurrences("", "xyz", "q"), "");
    assert_eq!(replace_occurrences("xy", "xyz", "q"), "xy");
}

#[test]
fn replace_works_on_characters_of_several_bytes() {
    assert_eq!(replace_occurrences("日本語と日本", "日本", "にほん"), "にほん語とにほん");
    assert_eq!(replace_occurrences("aé日b", "é", "e"), "ae日b");
    assert_eq!(replace_occurrences("한국어", "국", ""), "한어");
}

#[test]
fn empty_pattern_occurs_nowhere() {
    assert_eq!(replace_occurrences("abc", "", "x"), "abc");
    assert_eq!(replace_occurrences("", "", "x"), "");
}

#[test]
fn replace_at_both_ends() {
    assert_eq!(replace_occurrences("abcab", "ab", "-"), "-c-");
    assert_eq!(replace_occurrences("ab", "ab", "long replacement"), "long replacement");
}

#[test]
fn key_order_is_byte_order() {
    assert!(key_precedes("a", "b"));
    assert!(!key_precedes("b", "a"));
    assert!(key_precedes("a", "a"));
    assert!(key_precedes("", "a"));
    assert!(!key_precedes("a", ""));
    assert!(key_precedes("a", "ab"));
    assert!(!key_precedes("ab", "a"));
    assert!(key_precedes("Z", "a"));
    assert!(key_precedes("z", "あ"));
    assert!(key_precedes("あ", "日"));
    assert!(!key_precedes("日", "あ"));
}

#[test]
fn add_rule_refuses_empty_pattern_and_changes_nothing() {
    let mut dict = EzDict::new(true);
    assert!(dict.add_before_rule("b".into(), "1".into()).is_ok());
    assert!(dict.add_after_rule("c".into(), "2".into()).is_ok());
    let before = pairs(dict.before_rules());
    let after = pairs(dict.after_rules());

    assert!(matches!(dict.add_before_rule("".into(), "x".into()), Err(Error::InvalidRule)));
    assert!(matches!(dict.add_after_rule("".into(), "x".into()), Err(Error::InvalidRule)));

    assert_eq!(pairs(dict.before_rules()), before);
    assert_eq!(pairs(dict.after_rules()), after);
    assert!(dict.sort_enabled());
}

#[test]
fn sorted_dictionary_stays_sorted() {
    let mut dict = EzDict::new(true);
    for key in ["m", "b", "z", "a", "mm", "日", "あ", "B"] {
        assert!(dict.add_before_rule(key.into(), "x".into()).is_ok());
        let keys: Vec<String> = dict.before_rules().iter().map(|r| r.key().to_string()).collect();
        let mut sorted = keys.clone();
        sorted.sort();
        assert_eq!(keys, sorted);
    }
    let keys: Vec<String> = dict.before_rules().iter().map(|r| r.key().to_string()).collect();
    assert_eq!(keys, vec!["B", "a", "b", "m", "mm", "z", "あ", "日"]);
    assert!(dict.after_rules().is_empty());
}

#[test]
fn sorting_keeps_rules_of_one_pattern_in_their_order() {
    let mut dict = EzDict::new(true);
    dict.add_after_rule("b".into(), "first".into()).unwrap();
    dict.add_after_rule("a".into(), "one".into()).unwrap();
    dict.add_after_rule("b".into(), "second".into()).unwrap();
    dict.add_after_rule("a".into(), "two".into()).unwrap();
    dict.add_after_rule("b".into(), "third".into()).unwrap();
    assert_eq!(
        pairs(dict.after_rules()),
        vec![
            pair("a", "one"),
            pair("a", "two"),
            pair("b", "first"),
            pair("b", "second"),
            pair("b", "third"),
        ]
    );
}

#[test]
fn unsorted_dictionary_keeps_insertion_order() {
    let mut dict = EzDict::new(false);
    dict.add_before_rule("z".into(), "1".into()).unwrap();
    dict.add_before_rule("a".into(), "2".into()).unwrap();
    dict.add_before_rule("m".into(), "3".into()).unwrap();
    assert_eq!(pairs(dict.before_rules()), vec![pair("z", "1"), pair("a", "2"), pair("m", "3")]);
    dict.sort();
    dict.sort_before_dict();
    dict.sort_after_dict();
    assert_eq!(pairs(dict.before_rules()), vec![pair("z", "1"), pair("a", "2"), pair("m", "3")]);
    assert!(!dict.sort_enabled());
}

#[test]
fn from_rules_sorts_where_enabled() {
    let before = vec![
        EzDictItem::new("c".into(), "3".into()).unwrap(),
        EzDictItem::new("a".into(), "1".into()).unwrap(),
        EzDictItem::new("b".into(), "2".into()).unwrap(),
    ];
    let after = vec![EzDictItem::new("y".into(), "2".into()).unwrap(), EzDictItem::new("x".into(), "1".into()).unwrap()];
    let dict = EzDict::from_rules(true, before, after);
    assert_eq!(pairs(dict.before_rules()), vec![pair("a", "1"), pair("b", "2"), pair("c", "3")]);
    assert_eq!(pairs(dict.after_rules()), vec![pair("x", "1"), pair("y", "2")]);
}

#[test]
fn rules_apply_in_sequence_order() {
    let mut dict = EzDict::new(false);
    dict.add_before_rule("a".into(), "b".into()).unwrap();
    dict.add_before_rule("b".into(), "c".into()).unwrap();
    dict.add_after_rule("b".into(), "c".into()).unwrap();
    dict.add_after_rule("a".into(), "b".into()).unwrap();

    let mut text = String::from("aabb");
    dict.apply_before(&mut text);
    assert_eq!(text, "cccc");

    let mut text = String::from("aabb");
    dict.apply_after(&mut text);
    assert_eq!(text, "bbcc");
}

#[test]
fn entries_make_rules_and_back() {
    let entries = vec![pair("k1", "v1"), pair("k0", ""), pair("日本", "Japan")];
    let rules = rules_from_entries(entries.clone()).unwrap();
    assert_eq!(rules.len(), 3);
    assert_eq!(rules[1].key(), "k0");
    assert_eq!(rules[2].value(), "Japan");
    assert_eq!(entries_of(&rules), entries);
}

#[test]
fn entries_with_an_empty_pattern_are_refused() {
    let entries = vec![pair("k1", "v1"), pair("", "v"), pair("k2", "v2")];
    assert!(matches!(rules_from_entries(entries), Err(Error::InvalidRule)));
    assert!(matches!(
        EzDict::from_entries(false, vec![pair("a", "b")], vec![pair("", "b")]),
        Err(Error::InvalidRule)
    ));
    assert!(matches!(
        EzDict::from_entries(true, vec![pair("", "b")], vec![]),
        Err(Error::InvalidRule)
    ));
    assert!(rules_from_entries(Vec::new()).unwrap().is_empty());
}

#[test]
fn dictionary_taken_apart_and_rebuilt_is_the_same() {
    for sort in [false, true] {
        let mut dict = EzDict::new(sort);
        for (k, v) in [("m", "1"), ("a", "2"), ("m", "3"), ("z", "4"), ("a", "5")] {
            dict.add_before_rule(k.into(), v.into()).unwrap();
            dict.add_after_rule(v.into(), k.into()).unwrap();
        }
        let rebuilt =
            EzDict::from_entries(dict.sort_enabled(), dict.before_entries(), dict.after_entries())
                .unwrap();
        assert_eq!(rebuilt.sort_enabled(), sort);
        assert_eq!(pairs(rebuilt.before_rules()), pairs(dict.before_rules()));
        assert_eq!(pairs(rebuilt.after_rules()), pairs(dict.after_rules()));
    }
}
