//! A read-only word-embedding store: a vocabulary of byte strings paired with
//! a dense row-major matrix of 32-bit values, decoders for several on-disk
//! layouts, a compact native encoding, and batched lookup.
//!
//! Matrix entries are carried as the raw IEEE-754 bit patterns of `f32`
//! values (`u32`), so that every codec is exact and lossless.
use vstd::prelude::*;

pub mod bytes;
pub mod fasttext;
pub mod format;
pub mod glove;
pub mod native;
pub mod scan;
pub mod store;
pub mod text;
pub mod word2vec;
