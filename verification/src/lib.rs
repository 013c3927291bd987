//! Enumeration, deduplication and composition search over comparator layers.
//!
//! A layer is a function on a state space of `n` signal strengths, built from
//! two comparators. The crate enumerates every layer, keeps one of each
//! distinct output table, links the layers whose composition is still useful,
//! and searches the resulting graph for a chain that produces a target table.

pub mod cache;
pub mod config;
pub mod graph;
pub mod layers;
pub mod ledger;
pub mod search;
pub mod vector;
