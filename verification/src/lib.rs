//! Event replay service core: builds an immutable timeline of recorded
//! payloads from artifact names that embed a `YYYYMMDDHHMMSS` timestamp,
//! and drives a per-connection replay state machine over that timeline.

pub mod lex;
pub mod replay;
pub mod timeline;
pub mod stamp;
