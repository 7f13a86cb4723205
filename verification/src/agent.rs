//! The agent: what the application asks of the stack, and what it is told.
//!
//! Commands come in as lines of text, each one JSON object, and messages go out.
//! What is decided in between stands here; reading and writing the lines, and
//! driving the radio, does not.

pub mod attempt;
pub mod bonds;
pub mod change;
pub mod command;
pub mod endpoint;
pub mod meaning;
pub mod message;
pub mod play;
pub mod report;
pub mod retry;
pub mod state;
pub mod tuning;
pub mod variants;
