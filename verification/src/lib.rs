//! Birthday reminder core: calendar dates as plain values, a loader for
//! `;`-delimited rows of name and `DD.MM.YYYY` date, an evaluator that
//! anchors each birthday near a given day and filters it to a window, and
//! a presenter that renders the results as a text block.

pub mod date;
pub mod evaluate;
pub mod loader;
pub mod present;

pub use date::Date;
pub use evaluate::{BirthdayEntry, EvaluatedBirthday};
pub use loader::SkippedRow;
