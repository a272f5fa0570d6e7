//! Process-existence watchdog: a query over the operating system's process
//! table (an optional command-name prefix, an optional process id, and an
//! optional terminal), a parser that turns raw process-table text into
//! records grouped by terminal, and the matcher that decides whether any
//! live record still satisfies the query.

pub mod process;
pub mod query;
pub mod schedule;
pub mod text;
