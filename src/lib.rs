//! Index layer of a content-addressable cache: key hashing and bucket
//! sharding, the checksummed append-only log line format, and the
//! insert / find / delete / list decisions made over a bucket's records.
pub mod hashing;
pub mod layout;
pub mod codec;
pub mod index;
pub mod payload;
