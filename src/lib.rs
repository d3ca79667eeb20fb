//! An incremental, content-addressed dependency graph: each module gets a
//! content hash and an effective hash that also covers everything it depends
//! on, and a change is cascaded to every dependent.

pub mod graph;
pub mod hash;
pub mod ingest;
pub mod propagate;
pub mod text;
