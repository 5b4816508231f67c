//! A verified in-memory note store with JSON persistence.
//!
//! The store owns a list of notes, each with a unique numeric id, a text
//! content and a pinned flag. Mutations (add, delete, toggle-pin, reorder)
//! keep the id-uniqueness invariant; the codec turns the collection into a
//! single JSON document and back, and the two directions are proved to
//! round-trip.
//!
//! Chosen policies: `list` applies pin-first ordering (pinned notes before
//! unpinned ones, stable within each group), and a change notification is
//! owed after every mutation, with no toggle to switch it off; the shell
//! around the library performs the persistence write and the emission.

pub mod codec;
pub mod note;
pub mod store;
