//! Containers that obtain their memory from a pluggable storage.
//!
//! A storage offers slots and negotiates their number; a container decides
//! what the slots hold. The same container runs over storage that lives
//! inside it and never allocates (`inline`) and over storage that takes
//! blocks from an allocator and grows without a fixed bound (`allocator`).
//!
//! The containers are in `collections`: a growable buffer, a UTF-8 string on
//! top of it, a box for a single value, and a doubly linked list whose nodes
//! keep their handles for as long as they live. The capabilities that tie
//! the two sides together are in `traits`.
//!
//! No operation panics. What the bound of a storage cannot hold is not to be
//! asked of a container: its operations require the room within the bound,
//! and a caller that cannot know it tests the lengths against
//! `max_capacity` first. Within the bound, memory that an allocator does not
//! give comes back as a `StorageError`, with the container as it was, or,
//! from a constructor, with the storage as it was.

pub mod allocator;
pub mod collections;
pub mod inline;
pub mod traits;
pub mod utils;
