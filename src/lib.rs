//! Tile resolution and fetch-through disk cache for a satellite imagery proxy.
//!
//! The library holds the logic: which provider serves a satellite, how a tile
//! request becomes a cache key and an upstream URL, the in-memory cache index
//! with its least-recently-used eviction, and what a tile response is made of.
//! Reading and writing files, the HTTP listener and the HTTP client live with
//! the caller, which hands the library plain values.

pub mod text;
pub mod provider;
pub mod order;
pub mod cache;
pub mod recovery;
pub mod key;
pub mod query;
pub mod number;
pub mod upstream;
pub mod service;
pub mod routes;
