//! F4 Gröbner basis engine over prime fields, with verified building blocks.

pub mod monomial;
pub mod order;
pub mod field;
pub mod ring;
pub mod polynomial;
pub mod reduce;
pub mod division;
pub mod ideal;
pub mod spoly;
pub mod trace;
pub mod f4;
pub mod post;
