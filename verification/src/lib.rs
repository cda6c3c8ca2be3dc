//! Piramid: the storage-and-search core of an embedded vector database.
//!
//! A collection keeps documents (a 128-bit id, a quantized vector, a text and
//! a metadata mapping) in an append-only data region, finds them again through
//! an entry-pointer table, protects every write with a write-ahead log and
//! answers nearest-neighbour queries through one of three index kinds.
//!
//! Floating-point kernels (distance metrics, quantization) and file access are
//! the host's business. The library sees a similarity as an integer key whose
//! order is the order of the underlying float, and a file as its bytes.

pub mod config;
pub mod distance;
pub mod error;
pub mod host;
pub mod index;
pub mod metadata;
pub mod metrics;
pub mod quantization;
pub mod query;
pub mod score;
pub mod search;
pub mod server;
pub mod storage;

use vstd::prelude::*;

verus! {

/// Identifier of a document: the 128-bit value of its UUID.
pub type DocId = u128;

} // verus!
