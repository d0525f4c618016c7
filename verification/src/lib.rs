//! Converts an inferred JSON type descriptor (`Shape`) into TypeScript type
//! alias source text, honoring pointer-path-scoped override rules (`Hints`)
//! that are narrowed as a shape tree is walked depth-first.

pub mod generation;
pub mod hints;
pub mod shape;
pub mod text;
