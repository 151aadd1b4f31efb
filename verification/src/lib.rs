//! Per-category minimum, mean and maximum over `name;value` lines, with the
//! arithmetic and the text handling proved.

pub mod aggregate;
pub mod chunk;
pub mod decimal;
pub mod hash;
pub mod laws;
pub mod lines;
pub mod order;
pub mod record;
pub mod report;
pub mod split;
pub mod stat;
pub mod tables;
pub mod text;
pub mod totals;
