//! Core logic of a terminal disk-usage treemap: sized-tree construction with
//! small-file aggregation, slice-and-dice layout with integer-cell rounding,
//! navigation state, and deterministic color mapping.

pub mod color;
pub mod layout;
pub mod nav;
pub mod progress;
pub mod tree;
