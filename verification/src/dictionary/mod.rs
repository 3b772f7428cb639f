//! Systems and user phrase dictionaries.

use vstd::prelude::*;

pub mod chd;
pub mod composite;
pub mod loader;
pub mod phrase;
pub mod string_table;
pub mod trie;

verus! {

/// The lookup strategy hint for dictionary.
///
/// If the dictionary supports the lookup strategy it should try to use.
/// Otherwise fallback to standard.
#[derive(Debug, Clone, Copy, PartialEq, Eq, Structural)]
pub enum LookupStrategy {
    /// The native lookup strategy supported by the dictionary.
    Standard,
    /// Try to fuzzy match partial syllables using only preffix.
    FuzzyPartialPrefix,
}

impl Default for LookupStrategy {
    fn default() -> (r: Self)
        ensures
            r == LookupStrategy::Standard,
    {
        LookupStrategy::Standard
    }
}

} // verus!
