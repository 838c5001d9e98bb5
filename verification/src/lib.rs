//! A minimal container format that packs a flat set of files into one byte
//! sequence with constant-time access to any member by index.
//!
//! A container is an eight-byte header (a magic tag and the member count),
//! a table with the cumulative end offset of each member, and the member
//! bodies back to back. Members have no stored name: a member is known by
//! its position, and positions follow the byte-wise order of the file names
//! at the time of packing.
//!
//! * [`builder`] packs members, in memory or as a plan for a writer;
//! * [`reader`] finds and reads one member;
//! * [`inspector`] lists the start and length of every member;
//! * [`codec`] and [`le`] hold the byte layout that the three share;
//! * [`order`] defines the order of the members;
//! * [`laws`] proves what the operations have to do with each other.

pub mod builder;
pub mod codec;
pub mod error;
pub mod inspector;
pub mod laws;
pub mod le;
pub mod order;
pub mod reader;
