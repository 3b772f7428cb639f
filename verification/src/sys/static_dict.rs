//! A read-only system dictionary over a syllable trie.
//!
//! The file has the same layout as the one of [`crate::lm::StaticDict`],
//! except that the index nodes are big endian and the word list holds 4-byte
//! little endian word ids.

use crate::dictionary::LookupStrategy;
use crate::lm::trie_index::{parse_dict_file, spec_parse_dict_file, spec_trie_lookup, trie_lookup, TrieLayout};
use crate::model::WordId;
use crate::zhuyin::Syllable;
use vstd::prelude::*;

pub use crate::lm::trie_index::StaticDictError;

verus! {

/// How this dictionary's index and word list are laid out.
pub open spec fn sys_layout() -> TrieLayout {
    TrieLayout { big_endian: true, word_width: 4 }
}

/// A read-only dictionary using a pre-built trie index that is both space
/// efficient and fast to look up.
#[derive(Debug, Clone)]
pub struct StaticDict {
    index: Vec<u8>,
    words: Vec<u8>,
}

impl StaticDict {
    /// The trie index.
    pub closed spec fn spec_index(&self) -> Seq<u8> {
        self.index@
    }

    /// The word list.
    pub closed spec fn spec_words(&self) -> Seq<u8> {
        self.words@
    }

    /// The words of the phrases that `syllables` spell.
    pub open spec fn spec_lookup(&self, syllables: Seq<Syllable>, strategy: LookupStrategy) -> Seq<
        WordId,
    > {
        spec_trie_lookup(self.spec_index(), self.spec_words(), syllables, strategy, sys_layout())
    }

    /// Reads a dictionary from the bytes of its file.
    pub fn from_bytes(bytes: &[u8]) -> (r: Result<StaticDict, StaticDictError>)
        ensures
            match spec_parse_dict_file(bytes@) {
                Ok((index, words)) => r matches Ok(d) && d.spec_index() == index && d.spec_words()
                    == words,
                Err(e) => r == Err::<StaticDict, StaticDictError>(e),
            },
    {
        match parse_dict_file(bytes) {
            Ok((index, words)) => Ok(StaticDict { index, words }),
            Err(e) => Err(e),
        }
    }

    /// The words of the phrases that `syllables` spell, in trie order.
    pub fn lookup(&self, syllables: &[Syllable], strategy: LookupStrategy) -> (r: Vec<WordId>)
        ensures
            r@ == self.spec_lookup(syllables@, strategy),
    {
        trie_lookup(
            self.index.as_slice(),
            self.words.as_slice(),
            syllables,
            strategy,
            TrieLayout { big_endian: true, word_width: 4 },
        )
    }
}

} // verus!
