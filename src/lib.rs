//! Worst-case-optimal join evaluation: hash and sorted relation indexes,
//! galloping intersection, relation tries and the generic-join driver.
pub mod experiments;
pub mod hashed;
pub mod relation;
pub mod sorted;
pub mod trie;
pub mod value;

pub use value::{Val, ValView, Value};
