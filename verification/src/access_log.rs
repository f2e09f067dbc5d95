//! Types for reading web server access logs in the Common Log Format, one
//! entry per line:
//!
//! ```text
//! 127.0.0.1 - - [10/Sep/2026:13:55:36 +0000] "GET /api/users HTTP/1.1" 200 1234
//! ```
//!
//! Neither type carries data yet, and there is no reader of lines.
use vstd::prelude::*;

verus! {

/// One parsed access-log line; it has no fields.
pub struct LogEntry {}

/// A reader of access-log lines; it holds no state.
pub struct LogLines {}

} // verus!
