//! Per-key summary statistics over delimited text records.
//!
//! A single pass over lines of the form `key;value` maintains a running
//! minimum / mean / maximum per distinct key and renders one sorted,
//! deterministic report line.  Values are exact scaled decimals; keys are
//! compared by code point, which matches byte-for-byte UTF-8 order.

pub mod aggregate;
pub mod laws;
pub mod lex;
pub mod number;
pub mod parse;
pub mod report;
pub mod scan;
pub mod station;
