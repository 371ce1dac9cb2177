//! A two-phase interner for strings and byte arrays.
//!
//! Values are first collected (each distinct value gets an `Atom` and a
//! usage count), then `optimize` reorders the stored values so that the
//! most frequently used ones come first, and `serialize` writes every value
//! behind its ULEB128-encoded length.

pub mod interner;
pub mod laws;
pub mod order;
pub mod storage;
pub mod uleb;

pub use storage::{ArrayStorage, Internable, Storage, StringStorage};
pub use interner::{Atom, Interner};
