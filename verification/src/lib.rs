//! Single-pass aggregation of newline-delimited `key;value` records:
//! per-key count, sum, minimum and maximum in fixed-point units, with a
//! deterministic sorted report.

pub mod aggmap;
pub mod arena;
pub mod model;
pub mod output;
pub mod parse;
pub mod partition;
pub mod record;
pub mod run;
