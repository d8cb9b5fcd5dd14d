//! Per-task activity logs with a derived index: records, the clock state
//! machine, undo, and time-range reporting.

pub mod text;
pub mod time;
pub mod order;
pub mod models;
pub mod index;
pub mod clock;
pub mod query;
pub mod listing;
pub mod key;
pub mod options;
pub mod table;
pub mod parse;
pub mod zone;
pub mod store;
