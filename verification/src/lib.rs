//! Shapes for a character-cell terminal: each shape computes the cells it
//! occupies and the colour every one of them receives.

pub mod canvas;
pub mod scan;
pub mod shape;
