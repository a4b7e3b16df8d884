//! A dependency-graph engine for named units of work ("assets").
//!
//! A set of assets, each with a key and a list of dependency keys, is
//! validated and resolved into an acyclic graph whose roots are the
//! zero-dependency assets. The graph yields a deterministic, level-ordered
//! visitation sequence in which every node comes strictly after all of its
//! dependencies, so that executing assets in that order always runs a
//! dependency before its dependents.

pub mod asset;
pub mod entities;
pub mod errors;
pub mod graph;
pub mod keys;
pub mod traits;
