//! An in-memory indexed store for rigid-body-element ("RBE2") constraint
//! records: build two lookup indices from a batch of records in one pass,
//! then answer read-only point queries by element id and fan-out queries
//! by dependent node.

pub mod laws;
pub mod record;
pub mod store;
