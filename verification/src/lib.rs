//! A verified duty-roster core: it normalizes dated roster snapshots,
//! merges them into one person-by-date table, and derives per-person
//! attendance ratios and a date-indexed on-duty history.
pub mod cli;
pub mod history;
pub mod normalize;
pub mod seqs;
pub mod snapshot;
pub mod stats;
pub mod table;
pub mod time;
