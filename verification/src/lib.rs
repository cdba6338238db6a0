//! A crash-resilient staging log: encoded records are framed, checksummed and
//! appended to fixed-capacity chunks, then drained in the order they were written.
//!
//! The library works on the bytes of the chunk files and never touches a
//! file itself: whoever embeds it reads the files in, hands their bytes over
//! and writes back what [`chunk::Chunk::bytes`] says after every change.
//! Entries are byte strings on their way in; on their way out a decoder turns
//! each payload into an entry before the entry counts as read.
//!
//! What the operations guarantee is stated in their contracts and, where it
//! spans several operations, in [`laws`] and [`pending`].

pub mod backlog;
pub mod checksum;
pub mod chunk;
pub mod error;
pub mod frame;
pub mod glob;
pub mod header;
pub mod laws;
pub mod naming;
pub mod native;
pub mod pending;
pub mod region;

pub use backlog::Backlog;
