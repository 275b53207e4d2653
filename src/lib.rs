//! A file-backed store of titled records: the collection model, its query and
//! mutation rules, the JSON layout of the backing document, and the decisions
//! behind each request of the HTTP surface.

pub mod error;
pub mod record;
pub mod codec;
pub mod laws;
pub mod service;
