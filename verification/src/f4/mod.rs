//! F4 Gröbner basis algorithm.

pub mod error;
pub mod matrix;
pub mod options;
pub mod pairs;
pub mod pipeline;
pub mod simplify;
pub mod state;
pub mod symbolic;
pub mod trace;
pub mod types;

pub use error::F4Error;
pub use options::{F4Options, F4ReducerKind, ValidatedF4Options};
