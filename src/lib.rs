//! A schema-driven decoder that rebuilds a typed record from a loosely typed
//! list of key/value entries, one field schema at a time.

pub mod builder;
pub mod decoder;
pub mod engine;
pub mod laws;
pub mod resolver;
pub mod schema;
