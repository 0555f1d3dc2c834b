//! Client-side full-text search over precomputed index shards: filter-shard
//! decoding, synthetic filters, exact-phrase search and ranked fuzzy search.
pub mod pageset;
pub mod text;
pub mod index;
pub mod words;
pub mod locations;
pub mod gather;
pub mod exact;
pub mod ranked;
pub mod laws;
pub mod cbor;
pub mod filters;
pub mod synthetic;
pub mod synthetic_laws;
pub mod encoding;
