use keyzen::metrics::{accuracy, accuracy_band, speed_band, wpm, AccuracyBand, SpeedBand};
use keyzen::typing::TypingState;

fn chars(s: &str) -> Vec<char> {
    s.chars().collect()
}

#[test]
fn fresh_state_is_empty() {
    let s = TypingState::new();
    assert!(s.typed.is_empty());
    assert_eq!((s.correct_count, s.total_count, s.line_set), (0, 0, 0));
}

#[test]
fn typing_scores_each_character() {
    let target = chars("abc");
    let mut s = TypingState::new();
    s.type_char('a', &target);
    s.type_char('x', &target);
    assert_eq!(s.typed, chars("ax"));
    assert_eq!(s.correct_count, 1);
    assert_eq!(s.total_count, 2);
    assert_eq!(s.line_set, 0);
}

#[test]
fn wrong_character_then_backspace_restores_counters() {
    let target = chars("hello world");
    let mut s = TypingState::new();
    s.type_char('h', &target);
    s.type_char('e', &target);
    let before = (s.correct_count, s.total_count, s.typed.clone());
    s.type_char('z', &target);
    assert_eq!((s.correct_count, s.total_count), (2, 3));
    s.backspace(&target);
    assert_eq!((s.correct_count, s.total_count, s.typed.clone()), before);
}

#[test]
fn backspace_of_correct_character_takes_back_both_counts() {
    let target = chars("ab");
    let mut s = TypingState::new();
    s.type_char('a', &target);
    s.backspace(&target);
    assert_eq!((s.correct_count, s.total_count), (0, 0));
    assert!(s.typed.is_empty());
}

#[test]
fn backspace_on_nothing_typed_changes_nothing() {
    let target = chars("ab");
    let mut s = TypingState::new();
    s.backspace(&target);
    assert_eq!((s.correct_count, s.total_count, s.line_set), (0, 0, 0));
}

#[test]
fn filling_the_target_advances_the_window() {
    let target = chars("ab");
    let mut s = TypingState::new();
    s.type_char('a', &target);
    s.type_char('b', &target);
    assert!(s.typed.is_empty());
    assert_eq!(s.line_set, 1);
    assert_eq!((s.correct_count, s.total_count), (2, 2));
    // a backspace after the advance has nothing to remove
    s.backspace(&target);
    assert_eq!((s.correct_count, s.total_count), (2, 2));
}

#[test]
fn counters_stay_ordered_over_mixed_keys() {
    let target = chars("the quick brown fox");
    let mut s = TypingState::new();
    let keys = "thx\x08e qz\x08uick brpwn\x08\x08\x08own fox";
    for k in keys.chars() {
        if k == '\x08' {
            s.backspace(&target);
        } else {
            s.type_char(k, &target);
        }
        assert!(s.correct_count <= s.total_count);
    }
    assert_eq!(s.line_set, 1);
}

#[test]
fn accuracy_of_nothing_typed_is_full() {
    assert_eq!(accuracy(0, 0), 100);
}

#[test]
fn accuracy_eight_of_ten_is_eighty() {
    assert_eq!(accuracy(8, 10), 80);
}

#[test]
fn accuracy_rounds_to_nearest() {
    assert_eq!(accuracy(2, 3), 67);
    assert_eq!(accuracy(1, 3), 33);
    assert_eq!(accuracy(1, 8), 13);
    assert_eq!(accuracy(10, 10), 100);
    assert_eq!(accuracy(0, 7), 0);
}

#[test]
fn wpm_of_twenty_five_characters_in_a_minute_is_five() {
    assert_eq!(wpm(25, 60_000), 5);
}

#[test]
fn wpm_rounds_and_handles_zero_time() {
    assert_eq!(wpm(0, 0), 0);
    assert_eq!(wpm(100, 0), 0);
    assert_eq!(wpm(300, 30_000), 120);
    assert_eq!(wpm(7, 10_000), 8);
}

#[test]
fn accuracy_bands() {
    assert_eq!(accuracy_band(100), AccuracyBand::High);
    assert_eq!(accuracy_band(95), AccuracyBand::High);
    assert_eq!(accuracy_band(94), AccuracyBand::Medium);
    assert_eq!(accuracy_band(80), AccuracyBand::Medium);
    assert_eq!(accuracy_band(79), AccuracyBand::Low);
    assert_eq!(accuracy_band(101), AccuracyBand::Low);
}

#[test]
fn speed_bands() {
    assert_eq!(speed_band(60), SpeedBand::Fast);
    assert_eq!(speed_band(59), SpeedBand::Good);
    assert_eq!(speed_band(40), SpeedBand::Good);
    assert_eq!(speed_band(39), SpeedBand::Fair);
    assert_eq!(speed_band(20), SpeedBand::Fair);
    assert_eq!(speed_band(19), SpeedBand::Slow);
}
