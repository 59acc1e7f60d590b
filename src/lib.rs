//! Brute-force recovery of a short numeric password for an encrypted archive:
//! a keyspace of fixed-width decimal candidates, split into contiguous ranges,
//! scanned by workers that share a cooperative stop signal, and a sequential
//! scan of the same keyspace to compare against.
pub mod keyspace;
pub mod predicate;
pub mod search;
pub mod worker;

pub use predicate::try_password;
