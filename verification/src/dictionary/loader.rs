//! Where the assets of the input method are loaded from.

use vstd::prelude::*;

verus! {

/// Finds the assets of the input method: in its own search path, when set,
/// else in the one the environment gives.
#[derive(Debug, Default)]
pub struct AssetLoader {
    search_path: Option<String>,
}

impl AssetLoader {
    /// The search path set on this loader.
    pub closed spec fn spec_search_path(&self) -> Option<Seq<char>> {
        match self.search_path {
            Some(s) => Some(s@),
            None => None,
        }
    }

    /// A loader that uses the search path of the environment.
    pub fn new() -> (l: AssetLoader)
        ensures
            l.spec_search_path() is None,
    {
        AssetLoader { search_path: None }
    }

    /// Sets the search path of this loader.
    pub fn search_path(self, search_path: String) -> (l: AssetLoader)
        ensures
            l.spec_search_path() == Some(search_path@),
    {
        AssetLoader { search_path: Some(search_path) }
    }

    /// The search path to use: this loader's own, else `from_env`.
    pub fn effective_search_path(&self, from_env: String) -> (r: String)
        ensures
            r@ == (match self.spec_search_path() {
                Some(s) => s,
                None => from_env@,
            }),
    {
        match &self.search_path {
            Some(s) => s.clone(),
            None => from_env,
        }
    }
}

} // verus!
