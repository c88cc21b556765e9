//! Administration core of a stub-service backend: entity collections
//! (triggers and templates) held in an in-memory cache and written through
//! to a relational store, together with the pure codecs that turn persisted
//! rows into structured entities and back.

pub mod config;
pub mod headers;
pub mod order;
pub mod store;
pub mod templates;
pub mod triggers;
