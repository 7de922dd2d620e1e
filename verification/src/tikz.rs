//! TikZ rendering for finite posets, lattices, and transfer-system diagrams:
//! the typed syntax of option lists, labels and commands, and the integer
//! geometry that layouts are judged by.

pub mod counting;
pub mod geometry;
pub mod glyph;
pub mod layered;
pub mod layout;
pub mod syntax;
pub mod vertical;

pub use layout::PosetLayoutAlgorithm;
pub use syntax::{
    escape_tikz, TikzDrawCommand, TikzLabel, TikzOptions, TikzPathOperation, TikzStyle,
};
