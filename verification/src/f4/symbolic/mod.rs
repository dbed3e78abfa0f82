//! Symbolic preprocessing for F4 batches.
//!
//! Symbolic preprocessing builds the row set of a selected batch. Products stay
//! unevaluated until simplification has had a chance to rewrite them using the history
//! of earlier batches.

pub mod helpers;
pub mod materialize;
pub mod ordered;
pub mod preprocess;
pub mod reducers;
pub mod types;
pub mod worklist;

pub use helpers::{build_reducer_index, ReducerIndex};
pub use materialize::materialize_product;
pub use preprocess::symbolic_preprocess;
pub use reducers::{find_top_reducer_index, find_top_reducer_product};
pub use ordered::{OrderedMono, OrderedProduct};
pub use worklist::MonomialWorklist;
pub use types::{ProductSource, SymbolicPreprocessOutput, SymbolicRow, UnevaluatedProduct};
