//! Core engine of a personal ledger: exact integer-cents money, a bounded
//! Gregorian calendar with interval subdivision, hierarchical category keys,
//! a date-ordered record store, grouping accumulators, yearly contribution
//! limits, and the text report builders that consume them.

pub mod aggregate;
pub mod barchart;
pub mod category;
pub mod cents;
pub mod charset;
pub mod cmds;
pub mod cmdutil;
pub mod config;
pub mod date;
pub mod forlogt;
pub mod forsum;
pub mod forview;
pub mod interval;
pub mod layout;
pub mod limitkind;
pub mod limitprinter;
pub mod limits;
pub mod output;
pub mod record;
pub mod recordlist;
pub mod datepart;
pub mod text;
pub mod tree;
pub mod util;

pub use util::count_digits;
