//! A personal time tracker: entries logged against named timesheets, the
//! pointer state that remembers the active sheet, an entry table with its
//! queries, and the aggregation that groups a sheet's entries by day.

pub mod calendar;
pub mod commands;
pub mod config;
pub mod entry;
pub mod listing;
pub mod report;
pub mod state;
pub mod store;
pub mod text;
pub mod time;
