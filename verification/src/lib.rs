//! Search predicates and cross-column scoring for `tin` full-text indexes.

pub mod agreement;
pub mod catalog;
pub mod collections;
pub mod corpus;
pub mod fields;
pub mod keys;
pub mod laws;
pub mod operator;
pub mod order;
pub mod quals;
pub mod repeats;
pub mod rewrite;
pub mod scoring;
pub mod single;
pub mod text;
pub mod truth;
