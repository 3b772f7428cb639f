//! Common models shared by all components

use vstd::prelude::*;

verus! {

/// The smallest word id of the static word list.
pub const MIN_STATIC: u32 = 0x00000000;

/// The smallest word id of the user vocabulary.
pub const MIN_USER: u32 = 0x01000000;

/// Locally unique id for a word
#[derive(Debug, Clone, Copy, PartialEq, Eq, Structural, Hash)]
pub struct WordId(pub u32);

/// Identify the origin of a WordId
#[derive(Debug, Clone, Copy, PartialEq, Eq, Structural)]
pub enum WordOrig {
    /// The word is defined in the static word list
    Static,
    /// The word is defined in the user vocabulary
    User,
    /// Unknown origin, might be invalid
    Unknown,
}

/// The origin of a word id, decided by its most significant byte.
pub open spec fn spec_word_orig(v: u32) -> WordOrig {
    if v / 0x1000000 == 0 {
        WordOrig::Static
    } else if v / 0x1000000 == 1 {
        WordOrig::User
    } else {
        WordOrig::Unknown
    }
}

impl WordId {
    /// The offset of the word inside the table of its origin: the lower 24 bits.
    pub open spec fn spec_offset(self) -> nat {
        (self.0 % 0x1000000) as nat
    }

    /// Returns the offset of the word inside the table of its origin.
    pub fn as_offset(&self) -> (r: usize)
        ensures
            r == self.spec_offset(),
    {
        (self.0 % 0x1000000) as usize
    }

    /// Returns where the word is defined.
    pub fn orig(&self) -> (r: WordOrig)
        ensures
            r == spec_word_orig(self.0),
    {
        let prefix = self.0 / 0x1000000;
        if prefix == 0 {
            WordOrig::Static
        } else if prefix == 1 {
            WordOrig::User
        } else {
            WordOrig::Unknown
        }
    }
}

impl From<u32> for WordId {
    fn from(value: u32) -> (r: WordId) {
        WordId(value)
    }
}

impl vstd::std_specs::convert::FromSpecImpl<u32> for WordId {
    open spec fn obeys_from_spec() -> bool {
        true
    }

    open spec fn from_spec(v: u32) -> WordId {
        WordId(v)
    }
}

/// A user word id is the user base plus its offset, and an offset below
/// `2^24` always names a user word that reads back the same offset.
pub proof fn lemma_user_word_id(offset: u32)
    requires
        offset < 0x1000000,
    ensures
        spec_word_orig((MIN_USER + offset) as u32) == WordOrig::User,
        WordId((MIN_USER + offset) as u32).spec_offset() == offset,
{
}

} // verus!
