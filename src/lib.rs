//! A terminal countdown / count-up timer: duration tokens such as `10s` or
//! `1.5h` are summed into a total span, which is formatted for display while
//! the time runs.

pub mod display;
pub mod format;
pub mod parse;
pub mod span;

pub use display::{tick, DisplayMode, Tick};
pub use format::format_duration;
pub use parse::{parse_duration, token_span, token_span_at, ParsingError, Unit};
pub use span::{Span, MAX_NANOS, NANOS_PER_MILLI, NANOS_PER_SEC};
