//! Zeppelin: an object-store-native vector search engine.
//!
//! Vectors are 32-bit floating point values carried as their IEEE-754 bit
//! patterns (`u32`), so that every rule of the engine — ordering, filtering,
//! replay, query planning — is stated and checked over plain integers. The floating point arithmetic itself (distance kernels, k-means)
//! is supplied by the caller through the scorer plugin trait.

pub mod api;
pub mod codec;
pub mod manifest;
pub mod replay;
pub mod wal;
pub mod engine;
pub mod errors;
pub mod outside;
pub mod ranking;
pub mod filter;
pub mod fpbits;
pub mod types;
