//! What the terminal interface shows that can be computed without drawing.

pub mod tree;
