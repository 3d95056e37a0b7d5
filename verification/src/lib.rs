//! A weighted, directed graph of named tags.
//!
//! Tags are nodes, relationships are directed edges that carry a weight and
//! a mark telling whether a user set them or whether they were derived by
//! one-hop propagation.  Everything is kept in an in-memory relational
//! store with two tables ([`db`]); the operations on [`Tag`] are the public
//! surface.
//!
//! Weights are fixed-point numbers that count millionths ([`Weight`]), so
//! that products and comparisons are exact.  Names are stored as they are
//! given: quoting them for a query language is the business of whoever
//! writes the store to a database.
//!
//! Every operation has a contract over the model of the store
//! ([`db::model::Store`], [`graph`]), and [`laws`] proves what follows for
//! all stores: edges that users set are never overwritten by propagation,
//! derived weights never drop, removal cascades, a rebuild forgets stale
//! edges, and no key ever has two rows.

pub mod conf;
pub mod db;
pub mod graph;
pub mod laws;
pub mod logger;
pub mod seqs;
pub mod tag;
pub mod ui;
pub mod weight;

pub use tag::{MakeTag, Tag};
pub use weight::Weight;
