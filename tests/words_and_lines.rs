use keyzen::lines::create_text_lines;
use keyzen::words::{generate_unlimited_words, get_random_words};

fn vocab(ws: &[&str]) -> Vec<String> {
    ws.iter().map(|w| w.to_string()).collect()
}

#[test]
fn random_words_are_distinct_members() {
    let v = vocab(&["a", "b", "c", "d", "e"]);
    let r = get_random_words(&v, 3);
    assert_eq!(r.len(), 3);
    for w in &r {
        assert!(v.contains(w));
    }
    assert_ne!(r[0], r[1]);
    assert_ne!(r[1], r[2]);
    assert_ne!(r[0], r[2]);
}

#[test]
fn random_words_capped_by_vocabulary() {
    let v = vocab(&["x", "y"]);
    let mut r = get_random_words(&v, 5);
    assert_eq!(r.len(), 2);
    r.sort();
    assert_eq!(r, vocab(&["x", "y"]));
}

#[test]
fn generated_words_have_requested_length_and_come_from_vocabulary() {
    let v = vocab(&["cat", "dog", "emu"]);
    for need in [0usize, 1, 3, 7, 50] {
        let r = generate_unlimited_words(&v, need);
        assert_eq!(r.len(), need);
        for w in &r {
            assert!(v.contains(w));
        }
    }
}

#[test]
fn generated_batches_repeat_no_word_within_a_batch() {
    let v = vocab(&["cat", "dog", "emu"]);
    let r = generate_unlimited_words(&v, 9);
    for batch in r.chunks(3) {
        let mut b = batch.to_vec();
        b.sort();
        assert_eq!(b, vocab(&["cat", "dog", "emu"]));
    }
}

#[test]
fn single_word_vocabulary_repeats() {
    let v = vocab(&["solo"]);
    let r = generate_unlimited_words(&v, 4);
    assert_eq!(r, vocab(&["solo", "solo", "solo", "solo"]));
}

#[test]
fn lines_group_words() {
    let w = vocab(&["a", "bb", "c", "dd", "e"]);
    assert_eq!(create_text_lines(&w, 2), vocab(&["a bb", "c dd", "e"]));
    assert_eq!(create_text_lines(&w, 5), vocab(&["a bb c dd e"]));
    assert_eq!(create_text_lines(&w, 10), vocab(&["a bb c dd e"]));
}

#[test]
fn lines_count_is_ceiling_and_round_trips() {
    let w = vocab(&["one", "two", "three", "four", "five", "six", "seven"]);
    for k in 1..10usize {
        let lines = create_text_lines(&w, k);
        assert_eq!(lines.len(), (w.len() + k - 1) / k);
        assert_eq!(lines.join(" "), w.join(" "));
    }
}

#[test]
fn lines_of_no_words_are_none() {
    let w: Vec<String> = Vec::new();
    assert!(create_text_lines(&w, 3).is_empty());
}

#[test]
fn lines_with_zero_width_hold_one_word_each() {
    let w = vocab(&["a", "b", "c"]);
    assert_eq!(create_text_lines(&w, 0), vocab(&["a", "b", "c"]));
}
