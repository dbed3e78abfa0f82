//! Critical-pair management for the F4 algorithm.

pub mod criterion;
pub mod critical_pair;
pub mod pending;

pub use criterion::{NoCriterion, PairCriterion, ProductCriterion};
pub use critical_pair::{CriticalPair, PairSide};
pub use pending::{add_pairs_with_new_basis_element, build_all_pairs, make_pair, PendingPairs};
pub mod selector;

pub use selector::{MinDegreeSelector, PairSelector, Selection};
pub mod update;

pub use update::update_with_polynomial;
