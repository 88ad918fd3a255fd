//! A single-book matching engine for binary event contracts, with two engines proved to
//! follow one abstract model.
pub mod audit;
pub mod bench;
pub mod book;
pub mod conformance;
pub mod laws;
pub mod legacy;
pub mod model;
pub mod reference;
pub mod types;
pub mod workload;
