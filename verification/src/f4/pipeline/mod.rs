//! The stages of one F4 iteration: pair selection, reduction, basis insertion, and the
//! final post-processing.

pub mod init;
pub mod insert;
pub mod iteration;
pub mod membership;
pub mod post;
pub mod reduction;
pub mod select;

pub use init::initialize_state;
pub use iteration::run_iteration;
pub use post::post_process_basis;
