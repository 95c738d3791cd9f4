//! A line-oriented terminal redraw engine.
//!
//! The crate accumulates a growing block of text destined for a scrolling
//! terminal and repeatedly repaints only the portion that fits in the current
//! viewport, erasing exactly what it previously drew, so the display appears
//! to update in place rather than scroll.
//!
//! - [`wrap`] holds the soft-wrap indexer: a pure function from a text block
//!   and a column width to the byte offsets where visual rows begin.
//! - [`term_printer`] holds the redraw engine: the text buffer, the print
//!   cursor, and the `clear` / `print` / `print_all` transitions.
//! - [`fmt`] holds the line formatter that produces the text block the
//!   engine renders, from counted lines and formatting options.
//! - [`scheduler`] holds the policy that throttles mid-stream redraws.
//!
//! The engine itself performs no I/O: each operation returns a description of
//! what must be written to the terminal (rows to erase, the byte offset to
//! print from), and the caller owns the sink.

pub mod fmt;
pub mod scheduler;
pub mod term_printer;
pub mod wrap;

pub use fmt::fmt_vals;
pub use fmt::FmtOpts;
pub use fmt::Format;
pub use scheduler::should_redraw;
pub use term_printer::TermPrinter;
pub use term_printer::UsageError;
pub use wrap::soft_breaks;
