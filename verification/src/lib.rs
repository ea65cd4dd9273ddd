//! A reader/encoder for a content-addressable object database in the style of
//! Git's loose object files: commit and tree objects, stored zlib-compressed
//! and addressed by a 40-character hexadecimal hash.
//!
//! The object codecs decode a compressed object file into a structured
//! in-memory value, validate its grammar, re-encode a commit back into its
//! canonical byte form, and walk the commit ancestry graph one hop at a time.

pub mod commit;
pub mod compress;
pub mod errors;
pub mod identity;
pub mod store;
pub mod text;
pub mod tree;
