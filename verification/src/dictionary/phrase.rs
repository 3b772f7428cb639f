//! A phrase of a dictionary with its frequency.

use vstd::prelude::*;

verus! {

/// A type containing a phrase string and its frequency.
#[derive(Clone, PartialEq, Eq, Hash, Debug)]
pub struct Phrase {
    text: String,
    freq: i32,
    last_used: Option<u64>,
}

impl Phrase {
    /// The text of the phrase.
    pub closed spec fn spec_text(&self) -> Seq<char> {
        self.text@
    }

    /// The frequency of the phrase.
    pub closed spec fn spec_freq(&self) -> i32 {
        self.freq
    }

    /// When the phrase was last used, if known.
    pub closed spec fn spec_last_used(&self) -> Option<u64> {
        self.last_used
    }

    /// Creates a new `Phrase`.
    pub fn new(phrase: &str, freq: i32) -> (p: Phrase)
        ensures
            p.spec_text() == phrase@,
            p.spec_freq() == freq,
            p.spec_last_used() is None,
    {
        Phrase { text: String::from_str(phrase), freq, last_used: None }
    }

    /// Creates a phrase with the time it was last used.
    pub fn with_last_used(phrase: &str, freq: i32, last_used: Option<u64>) -> (p: Phrase)
        ensures
            p.spec_text() == phrase@,
            p.spec_freq() == freq,
            p.spec_last_used() == last_used,
    {
        Phrase { text: String::from_str(phrase), freq, last_used }
    }

    /// Returns the frequency of the phrase.
    pub fn freq(&self) -> (f: i32)
        ensures
            f == self.spec_freq(),
    {
        self.freq
    }

    /// Returns the time the phrase was last used, if known.
    pub fn last_used(&self) -> (r: Option<u64>)
        ensures
            r == self.spec_last_used(),
    {
        self.last_used
    }

    /// Returns the inner str of the phrase.
    pub fn as_str(&self) -> (s: &str)
        ensures
            s@ == self.spec_text(),
    {
        self.text.as_str()
    }

    /// The text of the phrase, as its display.
    pub fn to_string(&self) -> (s: String)
        ensures
            s@ == self.spec_text(),
    {
        self.text.clone()
    }
}

} // verus!
