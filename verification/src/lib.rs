//! Maintenance pass of a personal-finance ledger: duplicate detection by
//! content fingerprint and automatic tagging by user-defined rules.

pub mod amount;
pub mod date;
pub mod dedup;
pub mod diagnostics;
pub mod digest;
pub mod fingerprint;
pub mod operations;
pub mod pattern;
pub mod sync;
pub mod tag_list;
pub mod tag_rules;
pub mod tagging;
pub mod text;
