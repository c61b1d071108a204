//! A vector similarity index library: given a collection of keyed points in a
//! metric-like space, answer "which stored points lie nearest a query?" either
//! exactly (a brute-force baseline) or approximately (a hierarchical navigable
//! small world graph), behind one uniform interface.

pub mod error;
pub mod point;
pub mod index;
pub mod rank;
pub mod naive;
pub mod level;
pub mod hnsw;
