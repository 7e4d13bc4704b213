//! Long-form directory listing: entry records, their permission summaries,
//! their order and the lines they render to.

pub mod line_creator;
