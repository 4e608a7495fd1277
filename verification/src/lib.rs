//! Episode tracker core: natural ordering of episode files, show
//! navigation, a format-preserving config document, and the state
//! aggregation that ties them together.
//!
//! All text (paths, keys, config contents) is modeled as UTF-8 bytes
//! (`Vec<u8>` / `Seq<u8>`); the surrounding application converts to and
//! from `String` and `PathBuf` at the edges, and performs all
//! filesystem and process work.

pub mod document;
pub mod loader;
pub mod natural;
pub mod show;
pub mod state;
pub mod text;
