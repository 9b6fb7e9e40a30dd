use keyzen::metrics::AccuracyBand;
use keyzen::session::{KeyInput, Mark, Phase, Session, SessionError};

fn vocab(ws: &[&str]) -> Vec<String> {
    ws.iter().map(|w| w.to_string()).collect()
}

#[test]
fn empty_word_list_is_refused() {
    assert_eq!(Session::new(Vec::new(), 30).err(), Some(SessionError::NoWordsProvided));
}

#[test]
fn typing_the_window_exactly_advances_it() {
    let mut s = Session::with_layout(vocab(&["cat", "dog"]), 10, 2, 1).unwrap();
    s.refill();
    let target: String = s.target().into_iter().collect();
    assert!(target == "cat dog" || target == "dog cat");
    for c in target.chars() {
        assert_eq!(s.typing.line_set, 0);
        s.handle_key(KeyInput::Char(c));
        s.tick(5_000);
        assert_eq!(s.phase, Phase::Running);
    }
    assert_eq!(s.typing.total_count, 7);
    assert_eq!(s.typing.correct_count, 7);
    assert_eq!(s.typing.line_set, 1);
    assert!(s.typing.typed.is_empty());
    assert_eq!(s.header(5_000).accuracy, 100);
}

#[test]
fn first_character_starts_the_session() {
    let mut s = Session::new(vocab(&["alpha", "beta"]), 30).unwrap();
    assert_eq!(s.phase, Phase::NotStarted);
    let h = s.header(0);
    assert!(!h.started);
    assert_eq!(h.secs_left, 30);
    s.handle_key(KeyInput::Backspace);
    assert_eq!(s.phase, Phase::NotStarted);
    s.handle_key(KeyInput::Other);
    assert_eq!(s.phase, Phase::NotStarted);
    s.handle_key(KeyInput::Char('a'));
    assert_eq!(s.phase, Phase::Running);
    assert_eq!(s.typing.total_count, 1);
}

#[test]
fn escape_before_time_is_up_reports_counters_so_far() {
    let mut s = Session::new(vocab(&["alpha", "beta"]), 30).unwrap();
    s.handle_key(KeyInput::Char('q'));
    s.handle_key(KeyInput::Char('q'));
    s.handle_key(KeyInput::Escape);
    assert_eq!(s.phase, Phase::Finished);
    assert_eq!(s.typing.total_count, 2);
    let r = s.report(0);
    assert_eq!(r.wpm, 0);
    assert_eq!(r.seconds, 0);
    assert_eq!(r.accuracy, 0);
    assert_eq!(r.accuracy_band, AccuracyBand::Low);
    // a finished session takes no more keys
    s.handle_key(KeyInput::Char('a'));
    assert_eq!(s.typing.total_count, 2);
    assert_eq!(s.phase, Phase::Finished);
}

#[test]
fn escape_at_once_reports_zero_speed() {
    let mut s = Session::new(vocab(&["alpha"]), 30).unwrap();
    s.handle_key(KeyInput::Escape);
    assert_eq!(s.phase, Phase::Finished);
    let r = s.report(0);
    assert_eq!(r.wpm, 0);
    assert_eq!(r.accuracy, 100);
    assert_eq!(r.seconds, 0);
}

#[test]
fn time_up_finishes_a_running_session() {
    let mut s = Session::new(vocab(&["alpha"]), 10).unwrap();
    s.tick(50_000);
    assert_eq!(s.phase, Phase::NotStarted);
    s.handle_key(KeyInput::Char('a'));
    s.tick(9_999);
    assert_eq!(s.phase, Phase::Running);
    assert_eq!(s.header(9_999).secs_left, 0);
    s.tick(10_000);
    assert_eq!(s.phase, Phase::Finished);
}

#[test]
fn header_and_report_figures() {
    let mut s = Session::with_layout(vocab(&["abcde"]), 60, 1, 1).unwrap();
    for _ in 0..5 {
        for c in "abcde".chars() {
            s.handle_key(KeyInput::Char(c));
        }
    }
    assert_eq!(s.typing.correct_count, 25);
    let h = s.header(60_000);
    assert_eq!(h.wpm, 5);
    assert_eq!(h.accuracy, 100);
    assert_eq!(h.secs_left, 0);
    assert_eq!(s.header(999).wpm, 0);
    assert_eq!(s.header(1_500).secs_left, 58);
    let r = s.report(60_000);
    assert_eq!(r.wpm, 5);
    assert_eq!(r.seconds, 60);
    assert_eq!(s.report(1_499).seconds, 1);
    assert_eq!(s.report(1_500).seconds, 2);
}

#[test]
fn refill_keeps_lines_ahead() {
    let mut s = Session::new(vocab(&["w1", "w2", "w3"]), 30).unwrap();
    s.refill();
    assert!(s.lines.len() >= 13);
    let first = s.lines.clone();
    s.refill();
    assert_eq!(s.lines, first);
    for line in &s.lines {
        assert_eq!(line.split(' ').count(), 10);
        for word in line.split(' ') {
            assert!(["w1", "w2", "w3"].contains(&word));
        }
    }
}

#[test]
fn glyphs_mark_typed_caret_and_rest() {
    let mut s = Session::with_layout(vocab(&["ab"]), 30, 1, 2).unwrap();
    s.refill();
    s.handle_key(KeyInput::Char('a'));
    s.handle_key(KeyInput::Char('x'));
    let g = s.window_glyphs();
    assert_eq!(g.len(), 2);
    assert_eq!(g[0].len(), 2);
    assert_eq!((g[0][0].ch, g[0][0].mark), ('a', Mark::Correct));
    assert_eq!((g[0][1].ch, g[0][1].mark), ('x', Mark::Incorrect));
    // position 2 is the space between the lines; the caret sits there
    assert_eq!((g[1][0].ch, g[1][0].mark), ('a', Mark::Untyped));
    s.handle_key(KeyInput::Char(' '));
    let g = s.window_glyphs();
    assert_eq!((g[1][0].ch, g[1][0].mark), ('a', Mark::Caret));
    assert_eq!((g[1][1].ch, g[1][1].mark), ('b', Mark::Untyped));
}

#[test]
fn keys_after_advancing_extend_the_text() {
    let mut s = Session::with_layout(vocab(&["ab"]), 30, 1, 1).unwrap();
    for _ in 0..40 {
        s.handle_key(KeyInput::Char('a'));
        s.handle_key(KeyInput::Char('b'));
    }
    assert_eq!(s.typing.line_set, 40);
    assert!(s.lines.len() >= 41 + 10);
    assert!(s.lines.iter().all(|l| l == "ab"));
    assert_eq!(s.typing.correct_count, 80);
}
