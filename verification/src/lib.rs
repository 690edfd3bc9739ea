//! A multi-source reconcile engine: normalizes JSON/CSV payloads into
//! canonical records and merges them field by field, with a redis-style
//! key/value surface, glob-matched pub/sub and a compact binary row encoding.

pub mod error;
pub mod glob;
pub mod text;
pub mod pubsub;
pub mod binenc;
pub mod json;
pub mod ieee;
pub mod fieldmap;
pub mod normalize;
pub mod csv;
pub mod reconcile;
pub mod kvcache;
pub mod commands;
pub mod dispatch;
pub mod ingest;
pub mod store;
