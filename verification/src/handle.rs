//! An open store as one value: a set that is known to be intact, with the
//! queries as its methods. A query without a limit returns up to
//! `DEFAULT_MAX_RESULTS` names.

use crate::builder::{build_fst_set, index_keys, names_of, BuildError};
use crate::keys::strictly_increasing;
use crate::loader::{load_fst_set, LoadError};
use crate::search::{
    prefix_matches, prefix_search, preload_fst_set, substring_matches, substring_search, PreloadError, SearchError,
};
use crate::store::{is_store, set_intact, set_keys, store_keys};
use vstd::prelude::*;
use vstd::utf8::encode_utf8;

verus! {

/// The number of names that a query returns at most where it is given no
/// limit.
pub const DEFAULT_MAX_RESULTS: usize = 100;

/// The limit that a query applies: the one it is given, or the default.
pub open spec fn limit_of(max_results: Option<usize>) -> nat {
    match max_results {
        Some(max) => max as nat,
        None => DEFAULT_MAX_RESULTS as nat,
    }
}

/// Why the store for a text could not be built and opened. A store is
/// always built, and what was built is always opened, so neither case
/// arises.
#[derive(Debug)]
pub enum IndexError {
    /// The store could not be built.
    Build(BuildError),
    /// The store that was built could not be opened.
    Load(LoadError),
}

/// An open store of names. The set in it is intact, that is, it stands on
/// the bytes that a build wrote, and its keys are strictly increasing.
pub struct ChemicalFST {
    set: fst::Set<Vec<u8>>,
}

impl ChemicalFST {
    #[verifier::type_invariant]
    spec fn well_formed(self) -> bool {
        set_intact(self.set) && strictly_increasing(set_keys(self.set))
    }

    /// The keys of the store, in the order in which it is read.
    pub closed spec fn keys(self) -> Seq<Seq<u8>> {
        set_keys(self.set)
    }

    /// Opens the store that `data` holds, which a build wrote.
    pub fn new(data: Vec<u8>) -> (r: Result<ChemicalFST, LoadError>)
        requires
            is_store(data@),
        ensures
            r is Ok,
            r matches Ok(store) ==> store.keys() == store_keys(data@) && strictly_increasing(
                store.keys(),
            ),
    {
        match load_fst_set(data) {
            Ok(set) => Ok(ChemicalFST { set }),
            Err(error) => Err(error),
        }
    }

    /// Builds the store for the names in `text`, one on each line, and opens
    /// it.
    pub fn from_text(text: &[u8]) -> (r: Result<ChemicalFST, IndexError>)
        ensures
            r is Ok,
            r matches Ok(store) ==> store.keys() == index_keys(names_of(text@))
                && strictly_increasing(store.keys()),
    {
        match build_fst_set(text) {
            Ok(data) => match ChemicalFST::new(data) {
                Ok(store) => Ok(store),
                Err(error) => Err(IndexError::Load(error)),
            },
            Err(error) => Err(IndexError::Build(error)),
        }
    }

    /// The names that start with `prefix`, in order, up to the limit.
    pub fn prefix_search(&self, prefix: &str, max_results: Option<usize>) -> (results: Vec<String>)
        ensures
            results.deep_view() == prefix_matches(
                self.keys(),
                encode_utf8(prefix@),
                limit_of(max_results),
            ),
            results@.len() <= limit_of(max_results),
    {
        proof {
            use_type_invariant(self);
        }
        let max = match max_results {
            Some(max) => max,
            None => DEFAULT_MAX_RESULTS,
        };
        prefix_search(&self.set, prefix, max)
    }

    /// The names that contain `substring`, whatever the case of either, in
    /// order, up to the limit.
    pub fn substring_search(&self, substring: &str, max_results: Option<usize>) -> (r: Result<
        Vec<String>,
        SearchError,
    >)
        ensures
            r is Ok,
            r matches Ok(results) ==> results.deep_view() == substring_matches(
                self.keys(),
                substring@,
                limit_of(max_results),
            ) && results@.len() <= limit_of(max_results),
    {
        proof {
            use_type_invariant(self);
        }
        let max = match max_results {
            Some(max) => max,
            None => DEFAULT_MAX_RESULTS,
        };
        substring_search(&self.set, substring, max)
    }

    /// Reads the store through once and returns the number of its keys.
    pub fn preload(&self) -> (r: Result<usize, PreloadError>)
        ensures
            match r {
                Ok(count) => count == self.keys().len(),
                Err(PreloadError::CountOverflow) => self.keys().len() > usize::MAX,
            },
    {
        proof {
            use_type_invariant(self);
        }
        preload_fst_set(&self.set)
    }
}

} // verus!
