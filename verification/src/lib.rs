//! Prefix and substring search over a sorted, deduplicated set of names held
//! in a compact ordered key store.
//!
//! A store is built from a text with one name on each line, loaded from the
//! bytes that the build returned, and then queried: for the names that start
//! with a prefix, or for the names that contain a text whatever its case.

pub mod builder;
pub mod handle;
pub mod keys;
pub mod laws;
pub mod lines;
pub mod loader;
pub mod search;
pub mod sorting;
pub mod store;
pub mod text;

pub use crate::builder::{build_fst_index, build_fst_set, BuildError, BuiltIndex};
pub use crate::handle::{ChemicalFST, IndexError, DEFAULT_MAX_RESULTS};
pub use crate::loader::{load_fst_set, LoadError};
pub use crate::search::{prefix_search, preload_fst_set, substring_search, PreloadError, SearchError};
