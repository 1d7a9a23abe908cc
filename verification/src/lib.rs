//! Conversion between byte offsets and character offsets in UTF-8 text.
//!
//! The crate offers three operations, all linear in the length of the text:
//! counting the characters of a string, turning a character index into the
//! byte offset where that character starts, and turning an arbitrary byte
//! offset into the index of the character that contains it.  The scanning
//! work is batched over fixed-width groups of byte lanes so that a single
//! horizontal sum accounts for many bytes at once.

pub mod byte_chunk;
pub mod chars;
