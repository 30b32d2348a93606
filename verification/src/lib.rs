//! Verified core of an indicator-of-compromise scanner.
//!
//! Given the byte content of text files, the library extracts three kinds of
//! indicators — IPv4 addresses, domain names, and MD5/SHA1/SHA256-shaped hex
//! tokens — exactly as a longest-leftmost, word-boundary-anchored pattern
//! scan would, and aggregates them into an ordered sequence of typed match
//! records.  A separate, unverified front end performs the directory walk,
//! the file reads and the report serialization; it hands this library plain
//! values (paths, names, bytes) and takes plain values back.

pub mod ascii;
pub mod spans;
pub mod hashes;
pub mod ipv4;
pub mod domain;
pub mod enumerate;
pub mod scan;
