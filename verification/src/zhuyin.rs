//! Chinese syllables in their packed 16-bit form.
//!
//! A syllable is made of up to four Bopomofo components, each stored as a
//! 1-based index (0 means the component is absent):
//!
//! | bits  | component | range  |
//! | ----- | --------- | ------ |
//! | 15..9 | initial   | 0..=21 |
//! | 8..7  | medial    | 0..=3  |
//! | 6..3  | rime      | 0..=13 |
//! | 2..0  | tone      | 0..=5  |
//!
//! This is the value stored in the dictionary files.

use vstd::prelude::*;
use vstd::arithmetic::div_mod::lemma_fundamental_div_mod_converse;

verus! {

/// The longest phrase, in syllables, that dictionaries and learning handle.
pub const MAX_PHRASE_LEN: usize = 11;

/// Number of initials (ㄅ to ㄙ).
pub const MAX_INITIAL: u8 = 21;
/// Number of medials (ㄧ ㄨ ㄩ).
pub const MAX_MEDIAL: u8 = 3;
/// Number of rimes (ㄚ to ㄦ).
pub const MAX_RIME: u8 = 13;
/// Number of tones.
pub const MAX_TONE: u8 = 5;

pub open spec fn spec_initial(v: u16) -> int {
    v as int / 512
}

pub open spec fn spec_medial(v: u16) -> int {
    (v as int / 128) % 4
}

pub open spec fn spec_rime(v: u16) -> int {
    (v as int / 8) % 16
}

pub open spec fn spec_tone(v: u16) -> int {
    v as int % 8
}

/// The packed value of the four components.
pub open spec fn spec_pack(initial: int, medial: int, rime: int, tone: int) -> int {
    initial * 512 + medial * 128 + rime * 8 + tone
}

/// Whether a packed value names a syllable: every component is in range.
pub open spec fn valid_syllable_value(v: u16) -> bool {
    &&& spec_initial(v) <= MAX_INITIAL
    &&& spec_rime(v) <= MAX_RIME
    &&& spec_tone(v) <= MAX_TONE
}

/// Whether every component present in `prefix` is also the component of `v`.
pub open spec fn spec_starts_with(v: u16, prefix: u16) -> bool {
    &&& (spec_initial(prefix) != 0 ==> spec_initial(v) == spec_initial(prefix))
    &&& (spec_medial(prefix) != 0 ==> spec_medial(v) == spec_medial(prefix))
    &&& (spec_rime(prefix) != 0 ==> spec_rime(v) == spec_rime(prefix))
    &&& (spec_tone(prefix) != 0 ==> spec_tone(v) == spec_tone(prefix))
}

/// A Chinese syllable, or the empty syllable.
#[derive(Debug, Clone, Copy, PartialEq, Eq, Structural, Hash)]
pub struct Syllable {
    value: u16,
}

impl Syllable {
    /// The packed 16-bit value.
    pub closed spec fn spec_value(self) -> u16 {
        self.value
    }

    /// Every component index is in range.
    pub open spec fn wf(self) -> bool {
        valid_syllable_value(self.spec_value())
    }

    /// The empty syllable, as a value.
    pub closed spec fn spec_empty() -> Syllable {
        Syllable { value: 0 }
    }

    /// The empty syllable (no component).
    pub fn new() -> (s: Syllable)
        ensures
            s == Syllable::spec_empty(),
            s.spec_value() == 0,
            s.wf(),
    {
        Syllable { value: 0 }
    }

    /// Builds a syllable from the indexes of its components.
    pub fn from_parts(initial: u8, medial: u8, rime: u8, tone: u8) -> (s: Syllable)
        requires
            initial <= MAX_INITIAL,
            medial <= MAX_MEDIAL,
            rime <= MAX_RIME,
            tone <= MAX_TONE,
        ensures
            s.spec_value() == spec_pack(initial as int, medial as int, rime as int, tone as int),
            spec_initial(s.spec_value()) == initial,
            spec_medial(s.spec_value()) == medial,
            spec_rime(s.spec_value()) == rime,
            spec_tone(s.spec_value()) == tone,
            s.wf(),
    {
        proof {
            lemma_unpack(initial as int, medial as int, rime as int, tone as int);
        }
        let v: u16 = (initial as u16) * 512 + (medial as u16) * 128 + (rime as u16) * 8 + (tone as u16);
        Syllable { value: v }
    }

    /// Decodes a packed value, if it names a syllable.
    pub fn try_from_u16(v: u16) -> (r: Option<Syllable>)
        ensures
            r is Some <==> valid_syllable_value(v),
            r matches Some(s) ==> s.spec_value() == v && s.wf(),
    {
        if v / 512 <= 21 && (v / 8) % 16 <= 13 && v % 8 <= 5 {
            Some(Syllable { value: v })
        } else {
            None
        }
    }

    /// The packed 16-bit value.
    pub fn to_u16(&self) -> (v: u16)
        ensures
            v == self.spec_value(),
    {
        self.value
    }

    /// Whether the syllable has no component.
    pub fn is_empty(&self) -> (b: bool)
        ensures
            b == (self.spec_value() == 0),
    {
        self.value == 0
    }

    /// Whether every component present in `prefix` is also a component of
    /// this syllable; a partially typed syllable is a prefix of the full ones.
    pub fn starts_with(&self, prefix: Syllable) -> (b: bool)
        ensures
            b == spec_starts_with(self.spec_value(), prefix.spec_value()),
    {
        let v = self.value;
        let p = prefix.value;
        (p / 512 == 0 || v / 512 == p / 512) && ((p / 128) % 4 == 0 || (v / 128) % 4 == (p / 128)
            % 4) && ((p / 8) % 16 == 0 || (v / 8) % 16 == (p / 8) % 16) && (p % 8 == 0 || v % 8
            == p % 8)
    }
}

/// Unpacking a packed value gives back its components.
pub proof fn lemma_unpack(i: int, m: int, r: int, t: int)
    requires
        0 <= i < 128,
        0 <= m < 4,
        0 <= r < 16,
        0 <= t < 8,
    ensures
        spec_pack(i, m, r, t) / 512 == i,
        (spec_pack(i, m, r, t) / 128) % 4 == m,
        (spec_pack(i, m, r, t) / 8) % 16 == r,
        spec_pack(i, m, r, t) % 8 == t,
{
    let v = spec_pack(i, m, r, t);
    lemma_fundamental_div_mod_converse(v, 512, i, m * 128 + r * 8 + t);
    lemma_fundamental_div_mod_converse(v, 128, i * 4 + m, r * 8 + t);
    lemma_fundamental_div_mod_converse(i * 4 + m, 4, i, m);
    lemma_fundamental_div_mod_converse(v, 8, i * 64 + m * 16 + r, t);
    lemma_fundamental_div_mod_converse(i * 64 + m * 16 + r, 16, i * 4 + m, r);
}

/// A syllable is its packed value.
pub proof fn lemma_value_injective(a: Syllable, b: Syllable)
    ensures
        a.spec_value() == b.spec_value() ==> a == b,
{
}

/// Every syllable starts with itself and with the empty syllable.
pub proof fn lemma_starts_with_reflexive(v: u16)
    ensures
        spec_starts_with(v, v),
        spec_starts_with(v, 0),
{
}

} // verus!
