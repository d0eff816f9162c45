use ezcontext::segment::{is_japanese, segment, Run};

fn shape(runs: &Vec<Run>) -> Vec<(String, bool)> {
    runs.iter().map(|r| (r.text.clone(), r.translatable)).collect()
}

fn run(text: &str, translatable: bool) -> (String, bool) {
    (text.to_string(), translatable)
}

fn transitions(text: &str) -> usize {
    let classes: Vec<bool> = text.chars().map(is_japanese).collect();
    classes.windows(2).filter(|w| w[0] != w[1]).count()
}

#[test]
fn classifier_ranges() {
    assert!(!is_japanese('\u{2FFF}'));
    assert!(is_japanese('\u{3000}'));
    assert!(is_japanese('あ'));
    assert!(is_japanese('ア'));
    assert!(is_japanese('\u{30FF}'));
    assert!(!is_japanese('\u{3100}'));
    assert!(!is_japanese('\u{4DFF}'));
    assert!(is_japanese('\u{4E00}'));
    assert!(is_japanese('日'));
    assert!(is_japanese('\u{9FAF}'));
    assert!(!is_japanese('\u{9FB0}'));
    assert!(!is_japanese('a'));
    assert!(!is_japanese('가'));
    assert!(!is_japanese('\u{1F600}'));
}

#[test]
fn empty_text_has_no_runs() {
    assert!(segment("").is_empty());
}

#[test]
fn one_character_is_one_run() {
    assert_eq!(shape(&segment("a")), vec![run("a", false)]);
    assert_eq!(shape(&segment("日")), vec![run("日", true)]);
}

#[test]
fn runs_alternate() {
    assert_eq!(
        shape(&segment("xbary日本語z")),
        vec![run("xbary", false), run("日本語", true), run("z", false)]
    );
    assert_eq!(
        shape(&segment("こんにちは、world！さようなら")),
        vec![run("こんにちは、", true), run("world！", false), run("さようなら", true)]
    );
    assert_eq!(shape(&segment("abc")), vec![run("abc", false)]);
    assert_eq!(shape(&segment("日本語")), vec![run("日本語", true)]);
}

#[test]
fn segmentation_is_a_lossless_partition() {
    for text in [
        "",
        "a",
        "日",
        "a日",
        "日a",
        "xfooy日本語z",
        "あaあaあ",
        "한국어とEnglishと日本語",
        "😀日😀本😀",
        "  　　  ",
    ] {
        let runs = segment(text);
        let joined: String = runs.iter().map(|r| r.text.as_str()).collect();
        assert_eq!(joined, text);
        if text.is_empty() {
            assert_eq!(runs.len(), 0);
        } else {
            assert_eq!(runs.len(), transitions(text) + 1);
        }
        for r in runs.iter() {
            assert!(!r.text.is_empty());
            assert!(r.text.chars().all(|c| is_japanese(c) == r.translatable));
        }
        for pair in runs.windows(2) {
            assert_ne!(pair[0].translatable, pair[1].translatable);
        }
    }
}
