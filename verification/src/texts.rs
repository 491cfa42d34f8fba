//! Texts of a known shape, and what they parse to.
//!
//! The lemmas of [`pieces`] read one piece of a text where the characters
//! of the piece are known. The theorems of the other modules put them
//! together for whole manifests: a module line and a go line; a list of
//! requirements as one block or line by line; a requirement and its mark; a
//! retraction with a comment; a replacement; a block of settings.

pub mod debug_settings;
pub mod module_go;
pub mod pieces;
pub mod replacements;
pub mod requirements;
pub mod retractions;
