//! A small columnar analytical database core: a self-describing binary file
//! format storing compressed columns (int64 via delta + zigzag varint + Zstd;
//! varchar via length prefix + LZ4) in independently decodable batches, a
//! persistent catalog with reference-counted deferred deletion, and the pure
//! decision logic of an asynchronous query executor.

pub mod compression;
pub mod error;
pub mod executor;
pub mod metastore;
pub mod metrics;
pub mod models;
pub mod serialization;
pub mod table;
pub mod text;
pub mod varint;
