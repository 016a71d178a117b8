//! A small note-keeping library: an in-memory store of text notes with
//! contiguous 1-based identifiers, together with a plain-text JSON codec
//! for persisting the store as a snapshot.

mod clock;
pub mod codec;
pub mod menu;
pub mod numeral;
pub mod store;
pub mod text;
