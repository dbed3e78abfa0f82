//! Matrix representation, construction and reduction for F4.

pub mod construct;
pub mod reduce;
pub mod span;
pub mod types;

pub use construct::build_dense_matrix;
pub use reduce::row_reduce_dense;
pub use types::{ColumnBasis, DenseMatrixData, MatrixRowMeta, ReducedMatrixData};
