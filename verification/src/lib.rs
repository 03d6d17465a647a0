//! Code search helpers: build-log digests, tokenization, outlines and comment stripping.
pub mod chunking;
pub mod digest;
pub mod filter;
pub mod graph;
pub mod index;
pub mod outline;
pub mod pattern;
pub mod ranking;
pub mod search;
pub mod stats;
pub mod text;
pub mod tokens;
pub mod tree;
pub mod utils;
pub mod walker;
