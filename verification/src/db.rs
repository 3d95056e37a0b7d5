//! The relational store behind the tag graph.
//!
//! The store has two tables.  `tags` holds one row per tag, keyed by
//! `tag_name`, with an optional `info` text.  `relationship` holds one row
//! per directed edge, keyed by the pair (`tag1`, `tag2`), with a `weight`
//! and an `is_origin` mark that is used by the propagation rules.

pub mod schema;
pub mod model;
pub mod rank;
pub mod crud;
