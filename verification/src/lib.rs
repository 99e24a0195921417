//! An authenticated, hierarchical key-value storage layer for a timestamping
//! service: per-user append-only logs whose root digests cascade into a
//! user-registry record, all sharing one namespaced byte keyspace.

pub mod codec;
pub mod digest;
pub mod index;
pub mod keys;
pub mod model;
pub mod schema;
pub mod store;
