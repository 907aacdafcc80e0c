//! A terminal typing-test core library.
//!
//! The library owns the typing-session state machine (prompt, keystroke log,
//! cursor, timing) and the results engine that turns a finished keystroke log
//! into words-per-minute, accuracy and a consistency (standard deviation)
//! metric. Time is carried as integer milliseconds and fractional metrics as
//! integer thousandths, so every computation is exact.

pub mod cli;
pub mod lang;
pub mod prompt;
pub mod results;
pub mod session;
pub mod stats;
pub mod wiki;
