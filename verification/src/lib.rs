//! A verified media store for digital books: blobs, a collection forest,
//! and books decomposed into ordered page images, with an EPUB ingestion
//! pipeline on top.
//!
//! The store is held in memory by the serving process, so its contents
//! live exactly as long as the process does; durable storage, pool
//! bootstrap and schema migration stay with the surrounding program.

pub mod books;
pub mod collections;
pub mod configs;
pub mod errors;
pub mod ids;
pub mod images;
pub mod ingest;
pub mod laws;
pub mod order;
pub mod store;
