use ezcontext::dict::EzDict;
use ezcontext::order::key_precedes;
use ezcontext::segment::{is_japanese, segment};
use ezcontext::text::replace_occurrences;

/// A small deterministic generator of numbers.
struct Numbers(u64);

impl Numbers {
    fn next(&mut self) -> u64 {
        self.0 = self.0.wrapping_mul(6364136223846793005).wrapping_add(1442695040888963407);
        self.0 >> 33
    }

    fn below(&mut self, n: u64) -> usize {
        (self.next() % n) as usize
    }

    fn text(&mut self, alphabet: &[char], max_len: u64) -> String {
        let len = self.below(max_len + 1);
        (0..len).map(|_| alphabet[self.below(alphabet.len() as u64)]).collect()
    }
}

const ALPHABET: [char; 7] = ['a', 'b', 'é', 'あ', '日', '😀', ' '];

#[test]
fn replacement_agrees_with_std_replace() {
    let mut numbers = Numbers(1);
    for _ in 0..3000 {
        let text = numbers.text(&ALPHABET[..4], 24);
        let mut pattern = numbers.text(&ALPHABET[..4], 3);
        if pattern.is_empty() {
            pattern.push('a');
        }
        let replacement = numbers.text(&ALPHABET, 4);
        assert_eq!(
            replace_occurrences(&text, &pattern, &replacement),
            text.replace(pattern.as_str(), &replacement),
            "{:?} {:?} {:?}",
            text,
            pattern,
            replacement
        );
    }
}

#[test]
fn key_order_agrees_with_std_order() {
    let mut numbers = Numbers(2);
    for _ in 0..3000 {
        let a = numbers.text(&ALPHABET, 5);
        let b = numbers.text(&ALPHABET, 5);
        assert_eq!(key_precedes(&a, &b), a <= b, "{:?} {:?}", a, b);
    }
}

#[test]
fn sorting_agrees_with_std_stable_sort() {
    let mut numbers = Numbers(3);
    for round in 0..40 {
        let mut dict = EzDict::new(true);
        let mut expected: Vec<(String, String)> = Vec::new();
        for n in 0..(round * 3) {
            let mut key = numbers.text(&ALPHABET, 2);
            if key.is_empty() {
                key.push('k');
            }
            let value = format!("{}", n);
            expected.push((key.clone(), value.clone()));
            dict.add_before_rule(key, value).unwrap();
        }
        expected.sort_by(|l, r| l.0.cmp(&r.0));
        assert_eq!(dict.before_entries(), expected);
    }
}

#[test]
fn segmentation_agrees_with_grouping_by_class() {
    let mut numbers = Numbers(4);
    for _ in 0..2000 {
        let text = numbers.text(&ALPHABET, 16);
        let mut expected: Vec<(String, bool)> = Vec::new();
        for c in text.chars() {
            let class = is_japanese(c);
            match expected.last_mut() {
                Some((run, run_class)) if *run_class == class => run.push(c),
                _ => expected.push((c.to_string(), class)),
            }
        }
        let runs: Vec<(String, bool)> =
            segment(&text).into_iter().map(|r| (r.text, r.translatable)).collect();
        assert_eq!(runs, expected, "{:?}", text);
    }
}
