//! The F4 `Simplify` step: rewriting products with rows of earlier batches.

pub mod index;

pub use index::{SimplifyIndex, SimplifyRule};
