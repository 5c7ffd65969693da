//! Core of a small terminal dashboard over a flat-file collection of birds.
//!
//! The crate holds the verified parts: the record model, the on-disk codec
//! for the whole collection, the record service operations, and the session
//! state machine that consumes the merged event stream.  Terminal rendering,
//! raw-mode handling and file access stay outside, handing plain values in
//! and taking plain values back.

pub mod bird;
pub mod database;
pub mod menu;
pub mod menuitem;
pub mod session;
