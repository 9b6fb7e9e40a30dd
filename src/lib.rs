//! Engine of a terminal typing-speed test: word stream, line layout,
//! keystroke accounting, live metrics and the session state machine.

pub mod words;
pub mod lines;
pub mod text;
pub mod typing;
pub mod metrics;
pub mod session;
pub mod lang;
