//! A single-user task tracker: an ordered list of tasks, each a description
//! plus a completion flag, addressed by 1-based position, persisted as a
//! JSON array of `{"description": ..., "done": ...}` objects.
//!
//! The list operations live in [`tasks`], the human-readable listing in
//! [`listing`], and the store encoding and decoding in [`codec`].

pub mod codec;
pub mod listing;
pub mod tasks;
pub mod text;
