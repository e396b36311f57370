//! Virtual rows that plugins attach to source lines: math layouts, cell
//! output and stale-cell tags, and the layers that follow document edits.

pub mod display_layers;
pub mod line_map;
pub mod math;
pub mod output;
pub mod stale_tags;
