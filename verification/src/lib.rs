//! A verified HTTP routing core: a compressed radix trie over `/`-separated
//! path segments, with named parameter captures, trailing wildcards,
//! per-node middleware accumulation, and sub-router grafting.
//!
//! Handlers and middleware are identified by plain integers; the host
//! application keeps the table that maps those identifiers to the actual
//! callable objects.

pub mod cookies;
pub mod error;
pub mod executor;
pub mod laws;
pub mod method;
pub mod params;
pub mod route;
pub mod router;
pub mod segment;
pub mod session;
pub mod trie;
