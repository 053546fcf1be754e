//! Circular doubly-linked membership among records that live in one arena.
//!
//! A record is named by its handle, the index of its slot. The arena holds
//! only the links; the records themselves stay with whoever owns them.
//! [`list`] has the splice that takes a member out of its ring, [`ring`] the
//! model of a whole ring and what the splice does to it, [`error`] the error
//! kinds.

pub mod error;
pub mod list;
pub mod ring;
