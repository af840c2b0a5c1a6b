//! Exhaustive enumeration of functions between finite sets, with the
//! search machinery built on it: commutative squares of endofunctions and
//! dinatural families satisfying a hexagon identity.

pub mod function;
pub mod square;
pub mod dinatural;
