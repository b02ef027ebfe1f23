//! Generation of the playground's pinned dependency manifest.
//!
//! From a popularity-ranked list of libraries and a hand-curated override
//! the library computes the candidates, selects the newest release of each,
//! and, once the registry has resolved and fetched the packages, gives each
//! package the identifier it is exposed under, the features it is built
//! with, and its place in the manifest and in the index.

pub mod arrange;
pub mod catalog;
pub mod document;
pub mod error;
pub mod features;
pub mod laws;
pub mod manifest;
pub mod names;
pub mod package;
pub mod selection;
pub mod text;
pub mod version;
