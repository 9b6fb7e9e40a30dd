//! The typing session: a state machine over phases, fed with key events and
//! clock readings by its driver, and read back as frames and a report.
use crate::lines::{
    create_text_lines, group, join, lemma_group_append, lemma_lines_round_trip, line_count,
};
use crate::metrics::{
    accuracy, accuracy_band, accuracy_band_of, accuracy_percent, speed_band, speed_band_of, wpm,
    words_per_minute, AccuracyBand, SpeedBand,
};
use crate::text::chars_of;
use crate::typing::{
    lemma_consistent_counts, lemma_fresh_window, lemma_steps_keep_consistent, TypingState, TypingView,
};
use crate::words::{all_from, generate_unlimited_words, lemma_all_from_concat, texts};
use vstd::arithmetic::div_mod::lemma_div_multiples_vanish_fancy;
use vstd::prelude::*;

verus! {

/// Words on one display line.
pub const WORDS_PER_LINE: usize = 10;

/// Lines shown at once: one window of text.
pub const VISIBLE_LINES: usize = 3;

/// Lines kept ready beyond the end of the current window.
pub const LOOKAHEAD_LINES: usize = 10;

/// Lines added by one refill.
pub const BATCH_LINES: usize = 20;

/// Keystrokes a session can count. A character key is accepted only while
/// the counter is below it; a driver ends the session once it is reached.
pub const MAX_KEYSTROKES: usize = 0x00ff_ffff;

/// Where a session stands.
#[derive(Debug, Clone, Copy, PartialEq, Eq, Structural)]
pub enum Phase {
    NotStarted,
    Running,
    Finished,
}

/// A key press, as the session sees it.
#[derive(Debug, Clone, Copy, PartialEq, Eq, Structural)]
pub enum KeyInput {
    Char(char),
    Backspace,
    Escape,
    Other,
}

/// Why a session could not be set up.
#[derive(Debug, Clone, Copy, PartialEq, Eq, Structural)]
pub enum SessionError {
    NoWordsProvided,
}

/// How one character of the window is shown.
#[derive(Debug, Clone, Copy, PartialEq, Eq, Structural)]
pub enum Mark {
    /// Typed, and equal to the target character.
    Correct,
    /// Typed, and different from the target character.
    Incorrect,
    /// Not typed yet; the next character to type.
    Caret,
    /// Not typed yet.
    Untyped,
}

/// One character of the window with the way it is shown.
#[derive(Debug, Clone, Copy, PartialEq, Eq, Structural)]
pub struct Glyph {
    pub ch: char,
    pub mark: Mark,
}

/// The figures above the text.
#[derive(Debug, Clone, Copy, PartialEq, Eq, Structural)]
pub struct HeaderStats {
    pub started: bool,
    pub secs_left: u64,
    pub wpm: u128,
    pub accuracy: u64,
    pub accuracy_band: AccuracyBand,
}

/// The figures of the results screen.
#[derive(Debug, Clone, Copy, PartialEq, Eq, Structural)]
pub struct Report {
    pub wpm: u128,
    pub accuracy: u64,
    pub seconds: u64,
    pub speed_band: SpeedBand,
    pub accuracy_band: AccuracyBand,
}

/// A layout of at least one word a line and one line a window, small
/// enough that the line counts of every window a session can reach, and
/// the words of a refill, fit in `usize`.
pub open spec fn layout_fits(words_per_line: usize, visible_lines: usize) -> bool {
    &&& 0 < words_per_line
    &&& words_per_line * BATCH_LINES <= usize::MAX
    &&& 0 < visible_lines
    &&& (MAX_KEYSTROKES + 1) * visible_lines + LOOKAHEAD_LINES <= usize::MAX
}

/// `lines` are words of the vocabulary `v` laid out `k` to a line, every
/// line full.
pub open spec fn laid_out(lines: Seq<Seq<char>>, v: Seq<Seq<char>>, k: nat) -> bool {
    exists|w: Seq<Seq<char>>|
        all_from(w, v) && w.len() == lines.len() * k && #[trigger] group(w, k) == lines
}

/// No lines are laid out from no words.
proof fn lemma_laid_out_empty(v: Seq<Seq<char>>, k: nat)
    ensures
        laid_out(Seq::empty(), v, k),
{
    let w = Seq::<Seq<char>>::empty();
    assert(w.len() == 0 * k);
    assert(group(w, k) =~= Seq::<Seq<char>>::empty());
}

/// The lines of window number `set`, `v` lines a window; fewer where the
/// text runs out.
pub open spec fn window_of(lines: Seq<Seq<char>>, set: nat, v: nat) -> Seq<Seq<char>> {
    let start = set * v;
    let end = start + v;
    if start >= lines.len() {
        Seq::empty()
    } else if end > lines.len() {
        lines.subrange(start as int, lines.len() as int)
    } else {
        lines.subrange(start as int, end as int)
    }
}

/// The text to type in window number `set`: its lines joined by spaces.
pub open spec fn target_of(lines: Seq<Seq<char>>, set: nat, v: nat) -> Seq<char> {
    join(window_of(lines, set, v))
}

/// The phase after a key press.
pub open spec fn next_phase(p: Phase, key: KeyInput) -> Phase {
    if p == Phase::Finished {
        Phase::Finished
    } else {
        match key {
            KeyInput::Escape => Phase::Finished,
            KeyInput::Char(_) => Phase::Running,
            _ => p,
        }
    }
}

/// The typing state after a key press judged against `target`.
pub open spec fn next_typing(s: TypingView, p: Phase, key: KeyInput, target: Seq<char>) -> TypingView {
    if p == Phase::Finished {
        s
    } else {
        match key {
            KeyInput::Char(c) => s.after_char(c, target),
            KeyInput::Backspace => s.after_backspace(target),
            _ => s,
        }
    }
}

/// The phase after a clock reading of `elapsed_ms` milliseconds.
pub open spec fn phase_at(p: Phase, duration_secs: nat, elapsed_ms: nat) -> Phase {
    if p == Phase::Running && elapsed_ms >= duration_secs * 1000 {
        Phase::Finished
    } else {
        p
    }
}

/// How the character at position `pos` of the window is shown, where
/// `expected` is the target character there.
pub open spec fn glyph_at(typed: Seq<char>, pos: int, expected: char) -> Glyph {
    if pos < typed.len() {
        Glyph {
            ch: typed[pos],
            mark: if typed[pos] == expected {
                Mark::Correct
            } else {
                Mark::Incorrect
            },
        }
    } else if pos == typed.len() {
        Glyph { ch: expected, mark: Mark::Caret }
    } else {
        Glyph { ch: expected, mark: Mark::Untyped }
    }
}

/// `x`, or `cap` where `x` is beyond it.
pub open spec fn capped(x: int, cap: int) -> int {
    if x > cap {
        cap
    } else {
        x
    }
}

/// Position in the window's text where line `i` starts.
pub open spec fn line_offset(ls: Seq<Seq<char>>, i: int) -> int
    decreases i,
{
    if i <= 0 {
        0
    } else {
        line_offset(ls, i - 1) + ls[i - 1].len() + 1
    }
}

/// A typing session over a vocabulary, for a fixed number of seconds.
pub struct Session {
    pub phase: Phase,
    pub typing: TypingState,
    pub lines: Vec<String>,
    pub vocabulary: Vec<String>,
    pub duration_secs: u32,
    pub words_per_line: usize,
    pub visible_lines: usize,
}

impl Session {
    /// The text lines generated so far.
    pub open spec fn line_texts(&self) -> Seq<Seq<char>> {
        texts(self.lines@)
    }

    /// The text to type in the current window.
    pub open spec fn target_text(&self) -> Seq<char> {
        target_of(self.line_texts(), self.typing.line_set as nat, self.visible_lines as nat)
    }

    /// The lines of the current window.
    pub open spec fn window(&self) -> Seq<Seq<char>> {
        window_of(self.line_texts(), self.typing.line_set as nat, self.visible_lines as nat)
    }

    /// Every line of the current window has been generated.
    pub open spec fn covers_window(&self) -> bool {
        self.lines@.len() >= (self.typing.line_set + 1) * self.visible_lines
    }

    /// Lines a refill makes sure of: the current and the next window, and a
    /// margin.
    pub open spec fn lines_wanted(&self) -> nat {
        ((self.typing.line_set + 1) * self.visible_lines + LOOKAHEAD_LINES) as nat
    }

    /// The session's invariant.
    pub open spec fn wf(&self) -> bool {
        &&& self.vocabulary@.len() > 0
        &&& layout_fits(self.words_per_line, self.visible_lines)
        &&& self.typing.total_count <= MAX_KEYSTROKES
        &&& laid_out(self.line_texts(), texts(self.vocabulary@), self.words_per_line as nat)
        &&& self.typing@.consistent(self.target_text())
        &&& self.typing@.typed.len() > 0 ==> self.covers_window()
        &&& self.phase == Phase::NotStarted ==> self.typing.total_count == 0
    }

    /// The same session but for its text lines, which have only grown.
    pub open spec fn extends(&self, before: &Session) -> bool {
        &&& self.phase == before.phase
        &&& self.typing@ == before.typing@
        &&& self.vocabulary@ == before.vocabulary@
        &&& self.duration_secs == before.duration_secs
        &&& self.words_per_line == before.words_per_line
        &&& self.visible_lines == before.visible_lines
        &&& self.lines@.len() >= before.lines@.len()
        &&& self.line_texts().take(before.lines@.len() as int) == before.line_texts()
    }

    /// A session with the usual layout: ten words a line, three lines a
    /// window. An empty word list is refused.
    pub fn new(words: Vec<String>, duration: u32) -> (r: Result<Session, SessionError>)
        ensures
            words@.len() == 0 <==> r == Err::<Session, SessionError>(SessionError::NoWordsProvided),
            r matches Ok(s) ==> s.wf() && s.phase == Phase::NotStarted && s.vocabulary@ == words@
                && s.duration_secs == duration && s.words_per_line == WORDS_PER_LINE
                && s.visible_lines == VISIBLE_LINES && s.typing@ == (TypingView {
                typed: Seq::empty(),
                correct: 0,
                total: 0,
                line_set: 0,
            }) && s.lines@.len() == 0,
    {
        Session::with_layout(words, duration, WORDS_PER_LINE, VISIBLE_LINES)
    }

    /// A session with `words_per_line` words a line and `visible_lines`
    /// lines a window. An empty word list is refused.
    pub fn with_layout(words: Vec<String>, duration: u32, words_per_line: usize, visible_lines: usize) -> (r:
        Result<Session, SessionError>)
        requires
            layout_fits(words_per_line, visible_lines),
        ensures
            words@.len() == 0 <==> r == Err::<Session, SessionError>(SessionError::NoWordsProvided),
            r matches Ok(s) ==> s.wf() && s.phase == Phase::NotStarted && s.vocabulary@ == words@
                && s.duration_secs == duration && s.words_per_line == words_per_line
                && s.visible_lines == visible_lines && s.typing@ == (TypingView {
                typed: Seq::empty(),
                correct: 0,
                total: 0,
                line_set: 0,
            }) && s.lines@.len() == 0,
    {
        if words.len() == 0 {
            return Err(SessionError::NoWordsProvided);
        }
        let s = Session {
            phase: Phase::NotStarted,
            typing: TypingState::new(),
            lines: Vec::new(),
            vocabulary: words,
            duration_secs: duration,
            words_per_line,
            visible_lines,
        };
        proof {
            lemma_laid_out_empty(texts(s.vocabulary@), words_per_line as nat);
            assert(s.line_texts() =~= Seq::<Seq<char>>::empty());
        }
        Ok(s)
    }

    /// Generates lines until the current window, the next one and a margin
    /// are there. The new lines are fresh words of the vocabulary, laid out
    /// a full line at a time.
    pub fn refill(&mut self)
        requires
            old(self).wf(),
        ensures
            final(self).wf(),
            final(self).extends(old(self)),
            final(self).lines@.len() >= old(self).lines_wanted(),
            final(self).covers_window(),
            laid_out(
                final(self).line_texts().skip(old(self).lines@.len() as int),
                texts(old(self).vocabulary@),
                old(self).words_per_line as nat,
            ),
    {
        let ghost before = *self;
        let ghost v = texts(self.vocabulary@);
        let ghost k = self.words_per_line as nat;
        let ghost b = self.lines@.len();
        proof {
            lemma_consistent_counts(self.typing@, self.target_text());
            lemma_window_bounds(self.typing.line_set as nat, self.visible_lines as nat);
        }
        let needed = (self.typing.line_set + 1) * self.visible_lines + LOOKAHEAD_LINES;
        let batch_words = self.words_per_line * BATCH_LINES;
        let ghost added: Seq<Seq<char>> = Seq::empty();
        assert(self.line_texts().take(self.lines@.len() as int) =~= self.line_texts());
        assert(self.line_texts().skip(b as int) =~= Seq::<Seq<char>>::empty());
        assert(group(added, k) =~= Seq::<Seq<char>>::empty());
        assert(0 * k == 0);
        while self.lines.len() < needed
            invariant
                before.wf(),
                v == texts(before.vocabulary@),
                k == before.words_per_line,
                b == before.lines@.len(),
                needed == before.lines_wanted(),
                batch_words == self.words_per_line * BATCH_LINES,
                self.extends(&before),
                all_from(added, v),
                added.len() == (self.lines@.len() - b) * k,
                self.line_texts().skip(b as int) == group(added, k),
            decreases needed + BATCH_LINES - self.lines@.len(),
        {
            let more_words = generate_unlimited_words(self.vocabulary.as_slice(), batch_words);
            let mut more_lines = create_text_lines(more_words.as_slice(), self.words_per_line);
            let ghost mw = texts(more_words@);
            proof {
                lemma_lines_round_trip(mw, k);
                lemma_div_multiples_vanish_fancy(BATCH_LINES as int, k - 1, k as int);
                assert(k * BATCH_LINES == BATCH_LINES * k) by (nonlinear_arith);
                assert(line_count(batch_words as nat, k) == BATCH_LINES);
                assert(more_lines@.len() == texts(more_lines@).len());
                assert(more_lines@.len() == BATCH_LINES);
            }
            let ghost grown = self.lines@;
            let ghost new_lines = texts(more_lines@);
            self.lines.append(&mut more_lines);
            assert(self.lines@.len() == grown.len() + BATCH_LINES);
            proof {
                let m = (grown.len() - b) as nat;
                assert(self.line_texts() =~= texts(grown) + new_lines);
                assert(self.line_texts().take(grown.len() as int) =~= texts(grown));
                assert(self.line_texts().take(b as int) =~= texts(grown).take(b as int));
                assert(self.line_texts().skip(b as int) =~= texts(grown).skip(b as int) + new_lines);
                lemma_group_append(added, mw, k, m);
                lemma_all_from_concat(added, mw, v);
                assert((m + BATCH_LINES) * k == m * k + k * BATCH_LINES) by (nonlinear_arith);
                added = added + mw;
            }
        }
        proof {
            let old_words = choose|w: Seq<Seq<char>>|
                all_from(w, v) && w.len() == before.line_texts().len() * k && #[trigger] group(w, k)
                    == before.line_texts();
            let m = b as nat;
            lemma_group_append(old_words, added, k, m);
            lemma_all_from_concat(old_words, added, v);
            assert(self.line_texts() =~= before.line_texts() + self.line_texts().skip(b as int));
            let f = self.lines@.len() as nat;
            assert(m * k + (f - m) * k == f * k) by (nonlinear_arith)
                requires
                    m <= f,
            ;
            assert(group(old_words + added, k) == self.line_texts());
            assert(group(added, k) == self.line_texts().skip(b as int));
            if before.covers_window() {
                lemma_window_stable(before.line_texts(), self.line_texts(), self.typing.line_set as nat, self.visible_lines as nat);
            } else {
                lemma_fresh_window(self.typing@, self.target_text());
            }
            assert((self.typing.line_set + 1) * self.visible_lines + LOOKAHEAD_LINES >= (self.typing.line_set + 1) * self.visible_lines);
        }
    }

    /// The text to type in the current window.
    pub fn target(&self) -> (r: Vec<char>)
        requires
            self.wf(),
        ensures
            r@ == self.target_text(),
    {
        proof {
            lemma_consistent_counts(self.typing@, self.target_text());
            lemma_window_bounds(self.typing.line_set as nat, self.visible_lines as nat);
        }
        let ghost lt = self.line_texts();
        let start = self.typing.line_set * self.visible_lines;
        let n = self.lines.len();
        let mut r: Vec<char> = Vec::new();
        if start >= n {
            return r;
        }
        let end = if start + self.visible_lines > n {
            n
        } else {
            start + self.visible_lines
        };
        assert(self.window() =~= lt.subrange(start as int, end as int));
        let mut i = start;
        while i < end
            invariant
                start <= i <= end <= n == self.lines@.len(),
                lt == self.line_texts(),
                r@ == join(lt.subrange(start as int, i as int)),
            decreases end - i,
        {
            let mut cs = chars_of(self.lines[i].as_str());
            if i > start {
                r.push(' ');
            }
            r.append(&mut cs);
            assert(lt.subrange(start as int, i + 1).drop_last() =~= lt.subrange(start as int, i as int));
            i = i + 1;
        }
        r
    }

    /// Applies one key press: Escape ends the session, a character starts
    /// it and is typed, a backspace takes one character back; a finished
    /// session takes no more keys. The window is refilled first.
    pub fn handle_key(&mut self, key: KeyInput)
        requires
            old(self).wf(),
            key is Char ==> old(self).typing.total_count < MAX_KEYSTROKES,
        ensures
            final(self).wf(),
            final(self).lines@.len() >= old(self).lines@.len(),
            final(self).line_texts().take(old(self).lines@.len() as int) == old(self).line_texts(),
            (key is Char || key is Backspace) && old(self).phase != Phase::Finished
                ==> final(self).lines@.len() >= old(self).lines_wanted(),
            laid_out(
                final(self).line_texts().skip(old(self).lines@.len() as int),
                texts(old(self).vocabulary@),
                old(self).words_per_line as nat,
            ),
            final(self).phase == next_phase(old(self).phase, key),
            final(self).typing@ == next_typing(
                old(self).typing@,
                old(self).phase,
                key,
                target_of(final(self).line_texts(), old(self).typing.line_set as nat, old(self).visible_lines as nat),
            ),
            final(self).vocabulary@ == old(self).vocabulary@,
            final(self).duration_secs == old(self).duration_secs,
            final(self).words_per_line == old(self).words_per_line,
            final(self).visible_lines == old(self).visible_lines,
            old(self).covers_window() ==> target_of(final(self).line_texts(), old(self).typing.line_set as nat, old(self).visible_lines as nat) == old(self).target_text(),
    {
        proof {
            lemma_consistent_counts(self.typing@, self.target_text());
            lemma_laid_out_empty(texts(self.vocabulary@), self.words_per_line as nat);
            assert(self.line_texts().skip(self.lines@.len() as int) =~= Seq::<Seq<char>>::empty());
        }
        let ghost before = *self;
        if self.phase == Phase::Finished {
            proof {
                assert(self.line_texts().take(before.lines@.len() as int) =~= before.line_texts());
            }
            return;
        }
        match key {
            KeyInput::Escape => {
                self.phase = Phase::Finished;
                proof {
                    assert(self.line_texts().take(before.lines@.len() as int) =~= before.line_texts());
                }
            },
            KeyInput::Char(c) => {
                self.refill();
                proof {
                    if before.covers_window() {
                        lemma_window_stable(before.line_texts(), self.line_texts(), self.typing.line_set as nat, self.visible_lines as nat);
                    }
                }
                let target = self.target();
                self.phase = Phase::Running;
                self.typing.type_char(c, &target);
                proof {
                    lemma_consistent_counts(self.typing@, target@);
                    if self.typing@.typed.len() == 0 {
                        lemma_fresh_window(self.typing@, self.target_text());
                    }
                }
            },
            KeyInput::Backspace => {
                self.refill();
                proof {
                    if before.covers_window() {
                        lemma_window_stable(before.line_texts(), self.line_texts(), self.typing.line_set as nat, self.visible_lines as nat);
                    }
                }
                let target = self.target();
                self.typing.backspace(&target);
            },
            KeyInput::Other => {
                proof {
                    assert(self.line_texts().take(before.lines@.len() as int) =~= before.line_texts());
                }
            },
        }
    }

    /// The figures above the text after `elapsed_ms` milliseconds of
    /// typing: before the first keystroke the full duration and nothing
    /// else; then the seconds left, the speed once a second has passed, and
    /// the accuracy.
    pub fn header(&self, elapsed_ms: u64) -> (h: HeaderStats)
        requires
            self.wf(),
        ensures
            h.started == (self.phase != Phase::NotStarted),
            h.secs_left == if h.started {
                if elapsed_ms >= self.duration_secs * 1000 {
                    0
                } else {
                    (self.duration_secs * 1000 - elapsed_ms) as nat / 1000
                }
            } else {
                self.duration_secs as nat
            },
            h.wpm == if h.started && elapsed_ms >= 1000 {
                words_per_minute(self.typing.correct_count as nat, elapsed_ms as nat)
            } else {
                0
            },
            h.accuracy == accuracy_percent(self.typing.correct_count as nat, self.typing.total_count as nat),
            h.accuracy_band == accuracy_band_of(h.accuracy as nat),
    {
        proof {
            lemma_consistent_counts(self.typing@, self.target_text());
        }
        let started = self.phase != Phase::NotStarted;
        let total_ms = self.duration_secs as u64 * 1000;
        let secs_left = if !started {
            self.duration_secs as u64
        } else if elapsed_ms >= total_ms {
            0
        } else {
            (total_ms - elapsed_ms) / 1000
        };
        let speed = if started && elapsed_ms >= 1000 {
            wpm(self.typing.correct_count, elapsed_ms)
        } else {
            0
        };
        let acc = accuracy(self.typing.correct_count, self.typing.total_count);
        HeaderStats {
            started,
            secs_left,
            wpm: speed,
            accuracy: acc,
            accuracy_band: accuracy_band(acc),
        }
    }

    /// The results after `elapsed_ms` milliseconds of typing, from the
    /// counters as they stand; a session that never started has taken no
    /// time.
    pub fn report(&self, elapsed_ms: u64) -> (r: Report)
        requires
            self.wf(),
        ensures
            ({
                let e: nat = if self.phase == Phase::NotStarted {
                    0
                } else {
                    elapsed_ms as nat
                };
                &&& r.wpm == words_per_minute(self.typing.correct_count as nat, e)
                &&& r.seconds == (e + 500) / 1000
            }),
            r.accuracy == accuracy_percent(self.typing.correct_count as nat, self.typing.total_count as nat),
            r.speed_band == speed_band_of(r.wpm as nat),
            r.accuracy_band == accuracy_band_of(r.accuracy as nat),
    {
        proof {
            lemma_consistent_counts(self.typing@, self.target_text());
        }
        let e = if self.phase == Phase::NotStarted {
            0
        } else {
            elapsed_ms
        };
        let speed = wpm(self.typing.correct_count, e);
        let acc = accuracy(self.typing.correct_count, self.typing.total_count);
        let seconds = ((e as u128 + 500) / 1000) as u64;
        Report {
            wpm: speed,
            accuracy: acc,
            seconds,
            speed_band: speed_band(speed),
            accuracy_band: accuracy_band(acc),
        }
    }

    /// How each character of the window's lines is shown: typed characters
    /// as typed, marked right or wrong against the target; the rest as the
    /// target, with the caret on the next character to type.
    pub fn window_glyphs(&self) -> (r: Vec<Vec<Glyph>>)
        requires
            self.wf(),
        ensures
            r@.len() == self.window().len(),
            forall|i: int|
                #![trigger r@[i]]
                0 <= i < r@.len() ==> {
                    &&& r@[i]@.len() == self.window()[i].len()
                    &&& forall|j: int|
                        0 <= j < r@[i]@.len() ==> #[trigger] r@[i]@[j] == glyph_at(
                            self.typing@.typed,
                            line_offset(self.window(), i) + j,
                            self.window()[i][j],
                        )
                },
    {
        proof {
            lemma_consistent_counts(self.typing@, self.target_text());
            lemma_window_bounds(self.typing.line_set as nat, self.visible_lines as nat);
        }
        let ghost lt = self.line_texts();
        let ghost w = self.window();
        let ghost typed = self.typing@.typed;
        let start = self.typing.line_set * self.visible_lines;
        let n = self.lines.len();
        let mut r: Vec<Vec<Glyph>> = Vec::new();
        if start >= n {
            return r;
        }
        let end = if start + self.visible_lines > n {
            n
        } else {
            start + self.visible_lines
        };
        assert(w =~= lt.subrange(start as int, end as int));
        let tl = self.typing.typed.len();
        let typed_len = tl as u128;
        // the position where line `i` starts, capped one past the caret:
        // every position beyond the caret is shown alike
        let cap = typed_len + 1;
        let mut offset: u128 = 0;
        let mut i = start;
        while i < end
            invariant
                start <= i <= end <= n == self.lines@.len(),
                lt == self.line_texts(),
                w == lt.subrange(start as int, end as int),
                typed == self.typing@.typed,
                typed_len == typed.len(),
                tl == typed.len(),
                r@.len() == i - start,
                cap == typed_len + 1,
                offset == capped(line_offset(w, i - start), cap as int),
                forall|a: int|
                    #![trigger r@[a]]
                    0 <= a < r@.len() ==> {
                        &&& r@[a]@.len() == w[a].len()
                        &&& forall|j: int|
                            0 <= j < r@[a]@.len() ==> #[trigger] r@[a]@[j] == glyph_at(
                                typed,
                                line_offset(w, a) + j,
                                w[a][j],
                            )
                    },
            decreases end - i,
        {
            let ghost li = (i - start) as int;
            let cs = chars_of(self.lines[i].as_str());
            assert(cs@ == w[li]);
            let mut row: Vec<Glyph> = Vec::new();
            let mut j: usize = 0;
            while j < cs.len()
                invariant
                    j <= cs@.len(),
                    0 <= li < w.len(),
                    cs@ == w[li],
                    cap == typed_len + 1,
                    typed == self.typing@.typed,
                    typed_len == typed.len(),
                    tl == typed.len(),
                    offset == capped(line_offset(w, li), cap as int),
                    row@.len() == j,
                    forall|b: int|
                        0 <= b < j ==> #[trigger] row@[b] == glyph_at(typed, line_offset(w, li) + b, w[li][b]),
                decreases cs@.len() - j,
            {
                assert(typed_len <= 0xffff_ffff_ffff_ffff);
                let pos = offset + j as u128;
                let expected = cs[j];
                let g = if pos < typed_len {
                    let p = pos as usize;
                    assert(p == pos);
                    let t = self.typing.typed[p];
                    Glyph {
                        ch: t,
                        mark: if t == expected {
                            Mark::Correct
                        } else {
                            Mark::Incorrect
                        },
                    }
                } else if pos == typed_len {
                    Glyph { ch: expected, mark: Mark::Caret }
                } else {
                    Glyph { ch: expected, mark: Mark::Untyped }
                };
                let ghost rb = row@;
                assert(rb.len() == j);
                row.push(g);
                assert(row@ == rb.push(g));
                assert(row@.len() == j + 1);
                assert(g == glyph_at(typed, line_offset(w, li) + j, w[li][j as int]));
                j = j + 1;
            }
            let ghost done = r@;
            r.push(row);
            assert(cs@.len() <= 0xffff_ffff_ffff_ffff);
            assert(typed_len <= 0xffff_ffff_ffff_ffff);
            offset = if offset + cs.len() as u128 + 1 > cap {
                cap
            } else {
                offset + cs.len() as u128 + 1
            };
            i = i + 1;
            assert forall|a: int|
                #![trigger r@[a]]
                0 <= a < r@.len() implies {
                    &&& r@[a]@.len() == w[a].len()
                    &&& forall|j: int|
                        0 <= j < r@[a]@.len() ==> #[trigger] r@[a]@[j] == glyph_at(
                            typed,
                            line_offset(w, a) + j,
                            w[a][j],
                        )
                } by {
                if a < done.len() {
                    assert(r@[a] == done[a]);
                }
            }
        }
        r
    }

    /// Reads the clock: a running session whose time is up finishes.
    pub fn tick(&mut self, elapsed_ms: u64)
        requires
            old(self).wf(),
        ensures
            final(self).wf(),
            final(self).phase == phase_at(old(self).phase, old(self).duration_secs as nat, elapsed_ms as nat),
            final(self).typing@ == old(self).typing@,
            final(self).lines@ == old(self).lines@,
            final(self).vocabulary@ == old(self).vocabulary@,
            final(self).duration_secs == old(self).duration_secs,
            final(self).words_per_line == old(self).words_per_line,
            final(self).visible_lines == old(self).visible_lines,
    {
        if self.phase == Phase::Running && elapsed_ms >= self.duration_secs as u64 * 1000 {
            self.phase = Phase::Finished;
        }
    }
}

proof fn lemma_window_bounds(set: nat, v: nat)
    requires
        set <= MAX_KEYSTROKES,
        (MAX_KEYSTROKES + 1) * v + LOOKAHEAD_LINES <= usize::MAX,
    ensures
        set * v + v == (set + 1) * v,
        (set + 1) * v + LOOKAHEAD_LINES <= usize::MAX,
{
    assert((set + 1) * v <= (MAX_KEYSTROKES + 1) * v) by (nonlinear_arith)
        requires
            set <= MAX_KEYSTROKES,
    ;
    assert(set * v + v == (set + 1) * v) by (nonlinear_arith);
}

/// The typing state after the key presses `keys` of a running session,
/// each judged against the text of the window it falls in, as given by
/// `targets`.
pub open spec fn replay(s: TypingView, keys: Seq<KeyInput>, targets: spec_fn(nat) -> Seq<char>) -> TypingView
    decreases keys.len(),
{
    if keys.len() == 0 {
        s
    } else {
        let before = replay(s, keys.drop_last(), targets);
        next_typing(before, Phase::Running, keys.last(), targets(before.line_set))
    }
}

/// From a fresh state, any sequence of key presses leaves the state
/// consistent with the text of its window and never counts more correct
/// keystrokes than keystrokes.
pub proof fn lemma_replay_counts(keys: Seq<KeyInput>, targets: spec_fn(nat) -> Seq<char>)
    ensures
        ({
            let r = replay(
                TypingView { typed: Seq::empty(), correct: 0, total: 0, line_set: 0 },
                keys,
                targets,
            );
            &&& r.consistent(targets(r.line_set))
            &&& r.correct <= r.total
        }),
    decreases keys.len(),
{
    let fresh = TypingView { typed: Seq::empty(), correct: 0, total: 0, line_set: 0 };
    if keys.len() > 0 {
        lemma_replay_counts(keys.drop_last(), targets);
        let before = replay(fresh, keys.drop_last(), targets);
        let t = targets(before.line_set);
        let c = match keys.last() {
            KeyInput::Char(c) => c,
            _ => ' ',
        };
        lemma_steps_keep_consistent(before, c, t);
        let r = replay(fresh, keys, targets);
        lemma_consistent_counts(r, t);
        if r.line_set != before.line_set {
            lemma_fresh_window(r, targets(r.line_set));
        }
    }
}

/// Escape ends a session that has not finished, keeps its counters as they
/// are, and a session that took no time reports a speed of zero.
pub proof fn lemma_escape_ends_session(p: Phase, s: TypingView, target: Seq<char>)
    requires
        p != Phase::Finished,
    ensures
        next_phase(p, KeyInput::Escape) == Phase::Finished,
        next_typing(s, p, KeyInput::Escape, target) == s,
        words_per_minute(s.correct, 0) == 0,
{
}

/// Appending lines leaves a fully generated window as it was.
pub proof fn lemma_window_stable(a: Seq<Seq<char>>, b: Seq<Seq<char>>, set: nat, v: nat)
    requires
        b.len() >= a.len(),
        b.take(a.len() as int) == a,
        a.len() >= (set + 1) * v,
    ensures
        window_of(b, set, v) == window_of(a, set, v),
        target_of(b, set, v) == target_of(a, set, v),
{
    assert((set + 1) * v == set * v + v) by (nonlinear_arith);
    let start = set * v;
    if start < a.len() {
        assert(window_of(b, set, v) =~= window_of(a, set, v)) by {
            assert forall|i: int| 0 <= i < v implies #[trigger] b[start + i] == a[start + i] by {
                assert(b.take(a.len() as int)[start + i] == b[start + i]);
            }
        }
    } else {
        assert(window_of(b, set, v) =~= window_of(a, set, v));
    }
}

} // verus!
