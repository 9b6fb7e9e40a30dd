//! Keystroke accounting against the target text of the visible window.
use vstd::prelude::*;

verus! {

/// Number of positions of `typed` that hold the character of `target` there.
pub open spec fn matches(typed: Seq<char>, target: Seq<char>) -> nat
    decreases typed.len(),
{
    if typed.len() == 0 {
        0
    } else {
        let pos = typed.len() - 1;
        let hit: nat = if pos < target.len() && target[pos] == typed.last() {
            1
        } else {
            0
        };
        matches(typed.drop_last(), target) + hit
    }
}

/// The typing state as mathematics: what is typed in the current window,
/// the keystroke counters, and the index of the window.
pub struct TypingView {
    pub typed: Seq<char>,
    pub correct: nat,
    pub total: nat,
    pub line_set: nat,
}

impl TypingView {
    /// A character keystroke against `target`: counted, scored against the
    /// character at the caret, and, once the window's text is filled, the
    /// window advances and the typed text is cleared.
    pub open spec fn after_char(self, c: char, target: Seq<char>) -> TypingView {
        let pos = self.typed.len();
        let correct = if pos < target.len() && target[pos as int] == c {
            self.correct + 1
        } else {
            self.correct
        };
        if pos + 1 >= target.len() {
            TypingView {
                typed: Seq::empty(),
                correct: correct,
                total: self.total + 1,
                line_set: self.line_set + 1,
            }
        } else {
            TypingView {
                typed: self.typed.push(c),
                correct: correct,
                total: self.total + 1,
                line_set: self.line_set,
            }
        }
    }

    /// A backspace against `target`: removes the last typed character and
    /// takes back what its keystroke added to the counters.
    pub open spec fn after_backspace(self, target: Seq<char>) -> TypingView {
        if self.typed.len() == 0 {
            self
        } else {
            let pos = self.typed.len() - 1;
            let total = if self.total > 0 {
                (self.total - 1) as nat
            } else {
                0
            };
            let correct = if pos < target.len() && target[pos] == self.typed.last()
                && self.correct > 0 {
                (self.correct - 1) as nat
            } else {
                self.correct
            };
            TypingView {
                typed: self.typed.drop_last(),
                correct: correct,
                total: total,
                line_set: self.line_set,
            }
        }
    }

    /// The state is consistent with typing against `target`: the typed text
    /// is shorter than the target, and the counters are at least what the
    /// typed text accounts for, with no more correct keystrokes than
    /// keystrokes among those it does not.
    pub open spec fn consistent(self, target: Seq<char>) -> bool {
        &&& self.typed.len() == 0 || self.typed.len() < target.len()
        &&& matches(self.typed, target) <= self.correct
        &&& self.typed.len() + self.line_set <= self.total
        &&& self.correct - matches(self.typed, target) <= self.total - self.typed.len()
    }
}

/// What has been typed in the current window, with the running counters.
pub struct TypingState {
    pub typed: Vec<char>,
    pub correct_count: usize,
    pub total_count: usize,
    pub line_set: usize,
}

impl View for TypingState {
    type V = TypingView;

    open spec fn view(&self) -> TypingView {
        TypingView {
            typed: self.typed@,
            correct: self.correct_count as nat,
            total: self.total_count as nat,
            line_set: self.line_set as nat,
        }
    }
}

/// No more positions match than have been typed.
pub proof fn lemma_matches_bound(typed: Seq<char>, target: Seq<char>)
    ensures
        matches(typed, target) <= typed.len(),
    decreases typed.len(),
{
    if typed.len() > 0 {
        lemma_matches_bound(typed.drop_last(), target);
    }
}

/// A consistent state never counts more correct keystrokes than keystrokes.
pub proof fn lemma_consistent_counts(s: TypingView, target: Seq<char>)
    requires
        s.consistent(target),
    ensures
        s.correct <= s.total,
        s.line_set <= s.total,
{
    lemma_matches_bound(s.typed, target);
}

/// A state with nothing typed in the window is consistent with any target
/// as soon as its counters are in order.
pub proof fn lemma_fresh_window(s: TypingView, target: Seq<char>)
    requires
        s.typed.len() == 0,
        s.correct <= s.total,
        s.line_set <= s.total,
    ensures
        s.consistent(target),
{
}

/// Keystrokes and backspaces keep the state consistent with the target.
pub proof fn lemma_steps_keep_consistent(s: TypingView, c: char, target: Seq<char>)
    requires
        s.consistent(target),
    ensures
        s.after_char(c, target).consistent(target),
        s.after_backspace(target).consistent(target),
        s.after_char(c, target).correct <= s.after_char(c, target).total,
        s.after_backspace(target).correct <= s.after_backspace(target).total,
{
    lemma_matches_bound(s.typed, target);
    let pos = s.typed.len();
    assert(s.typed.push(c).drop_last() =~= s.typed);
    let n = s.after_char(c, target);
    lemma_matches_bound(n.typed, target);
    if s.typed.len() > 0 {
        lemma_matches_bound(s.typed.drop_last(), target);
    }
    let b = s.after_backspace(target);
    lemma_matches_bound(b.typed, target);
}

/// Typing a character that does not end the window and then taking it back
/// with a backspace restores the typed text and both counters exactly.
pub proof fn lemma_backspace_undoes_char(s: TypingView, c: char, target: Seq<char>)
    requires
        s.consistent(target),
        s.typed.len() + 1 < target.len(),
    ensures
        s.after_char(c, target).after_backspace(target) == s,
{
    assert(s.typed.push(c).drop_last() =~= s.typed);
}

impl TypingState {
    /// A fresh state: nothing typed, no keystrokes, first window.
    pub fn new() -> (s: TypingState)
        ensures
            s@ == (TypingView { typed: Seq::empty(), correct: 0, total: 0, line_set: 0 }),
    {
        TypingState { typed: Vec::new(), correct_count: 0, total_count: 0, line_set: 0 }
    }

    /// Applies a character keystroke against the window's `target` text.
    pub fn type_char(&mut self, c: char, target: &Vec<char>)
        requires
            old(self)@.consistent(target@),
            old(self).total_count < usize::MAX,
        ensures
            final(self)@ == old(self)@.after_char(c, target@),
            final(self)@.consistent(target@),
            final(self).correct_count <= final(self).total_count,
    {
        proof {
            lemma_steps_keep_consistent(self@, c, target@);
            lemma_consistent_counts(self@, target@);
        }
        let pos = self.typed.len();
        self.typed.push(c);
        self.total_count = self.total_count + 1;
        if pos < target.len() && target[pos] == c {
            self.correct_count = self.correct_count + 1;
        }
        if self.typed.len() >= target.len() {
            self.line_set = self.line_set + 1;
            self.typed.clear();
        }
    }

    /// Applies a backspace against the window's `target` text.
    pub fn backspace(&mut self, target: &Vec<char>)
        requires
            old(self)@.consistent(target@),
        ensures
            final(self)@ == old(self)@.after_backspace(target@),
            final(self)@.consistent(target@),
            final(self).correct_count <= final(self).total_count,
    {
        proof {
            lemma_steps_keep_consistent(self@, ' ', target@);
        }
        if let Some(removed) = self.typed.pop() {
            if self.total_count > 0 {
                self.total_count = self.total_count - 1;
            }
            let pos = self.typed.len();
            if pos < target.len() && target[pos] == removed && self.correct_count > 0 {
                self.correct_count = self.correct_count - 1;
            }
        }
    }
}

} // verus!
