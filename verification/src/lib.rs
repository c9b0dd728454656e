//! A static name-resolution override table ("hosts" mapping).
//!
//! The library keeps a line-oriented mapping of hostnames to pinned IPv4
//! addresses, in the conventional `address hostname [alias...]` format with
//! `#`-prefixed comment lines. It offers:
//!
//! - a validator for dotted-quad IPv4 literals,
//! - an updater that inserts or rewrites the record for a domain while
//!   leaving every other line untouched, and
//! - a read-only resolver that rewrites a URL's host with the address
//!   recorded for it.
//!
//! All file I/O is left to the caller: the updater and the resolver work on
//! the file's lines as plain values, so the whole table logic is verified.

pub mod ipv4;
pub mod resolve;
pub mod table;
pub mod text;
