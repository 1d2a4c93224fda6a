//! The ranking-resolution core of a full-text search engine.
//!
//! A query that has already been expanded into alternative interpretations is
//! turned, for one ranking criterion at a time, into a weighted graph of
//! conditions. The conditions are resolved against the current universe of
//! candidate documents and the paths through the graph are enumerated from the
//! cheapest to the most expensive, each with the documents that satisfy it.

pub mod bitmap;
pub mod cheapest_paths;
pub mod condition_docids_cache;
pub mod context;
pub mod costs;
pub mod dead_ends_cache;
pub mod document_deletion;
pub mod exactness;
pub mod interner;
pub mod path_laws;
pub mod query_graph;
pub mod ranking_rule_graph;
pub mod topological_order;
