//! User word preferences.
//!
//! The preferences are read from lines in the form `<word>,<freq>`; the
//! frequency is an integer, brought between [`UserFreq::MIN`] and
//! [`UserFreq::MAX`]. They seed the user history: a frequency N reads as if
//! the user had typed the word N times.

use crate::model::WordId;
use vstd::prelude::*;

verus! {

/// The value of the decimal digits `s` (`None` when one is not a digit).
pub open spec fn decimal_value(s: Seq<char>) -> Option<nat>
    decreases s.len(),
{
    if s.len() == 0 {
        Some(0)
    } else if '0' <= s.last() <= '9' {
        match decimal_value(s.drop_last()) {
            Some(v) => Some((v * 10 + (s.last() as int - '0' as int)) as nat),
            None => None,
        }
    } else {
        None
    }
}

/// What `u32::from_str` accepts: an optional `+`, then at least one ASCII
/// digit, with a value that fits in a `u32`.
pub open spec fn spec_parse_u32(s: Seq<char>) -> Option<u32> {
    let digits = if s.len() > 0 && s[0] == '+' {
        s.drop_first()
    } else {
        s
    };
    if digits.len() == 0 {
        None
    } else {
        match decimal_value(digits) {
            Some(v) => if v <= u32::MAX {
                Some(v as u32)
            } else {
                None
            },
            None => None,
        }
    }
}

/// A prefix that is not all digits makes the whole not all digits.
proof fn lemma_decimal_prefix_none(s: Seq<char>, k: int)
    requires
        0 <= k <= s.len(),
        decimal_value(s.take(k)) is None,
    ensures
        decimal_value(s) is None,
    decreases s.len() - k,
{
    if k < s.len() {
        assert(s.take(k + 1).drop_last() =~= s.take(k));
        lemma_decimal_prefix_none(s, k + 1);
    } else {
        assert(s.take(k) =~= s);
    }
}

/// Parses a decimal `u32` the way `str::parse` does; its documentation
/// gives the accepted form: an optional `+` sign followed by digits only,
/// the value fitting the type.
fn parse_u32(s: &str) -> (r: Option<u32>)
    ensures
        r == spec_parse_u32(s@),
{
    let n = s.unicode_len();
    let start: usize = if n > 0 && s.get_char(0) == '+' {
        1
    } else {
        0
    };
    let ghost digits = s@.subrange(start as int, n as int);
    proof {
        if n > 0 && s@[0] == '+' {
            assert(digits =~= s@.drop_first());
        } else {
            assert(digits =~= s@);
        }
    }
    if start == n {
        return None;
    }
    let mut acc: u64 = 0;
    let mut j: usize = start;
    proof {
        assert(digits.take(0) =~= Seq::<char>::empty());
    }
    while j < n
        invariant
            n == s@.len(),
            start <= j <= n,
            digits == s@.subrange(start as int, n as int),
            digits == (if s@.len() > 0 && s@[0] == '+' {
                s@.drop_first()
            } else {
                s@
            }),
            digits.len() > 0,
            decimal_value(digits.take(j - start)) matches Some(v) && acc == (if v > u32::MAX {
                u32::MAX as nat + 1
            } else {
                v
            }),
        decreases n - j,
    {
        let c = s.get_char(j);
        let ghost k = j - start;
        proof {
            assert(digits.take(k + 1).drop_last() =~= digits.take(k));
            assert(digits.take(k + 1).last() == c);
        }
        if c < '0' || c > '9' {
            proof {
                assert(decimal_value(digits.take(k + 1)) is None);
                lemma_decimal_prefix_none(digits, k + 1);
            }
            return None;
        }
        let d = (c as u32 - 48) as u64;
        let next = acc * 10 + d;
        acc = if next > 0xFFFF_FFFF {
            0x1_0000_0000
        } else {
            next
        };
        j = j + 1;
    }
    proof {
        assert(digits.take(n - start) =~= digits);
    }
    if acc > 0xFFFF_FFFF {
        None
    } else {
        Some(acc as u32)
    }
}

/// Why a line of user preferences could not be read.
#[derive(Debug, Clone, Copy, PartialEq, Eq, Structural)]
pub enum UserFreqError {
    /// The line has no comma.
    MissingComma,
    /// The frequency is not a decimal `u32`.
    InvalidFreq,
}

/// The index of the first `c` in `s`.
pub open spec fn first_char(s: Seq<char>, c: char, n: int) -> Option<int>
    decreases n,
{
    if n <= 0 {
        None
    } else {
        match first_char(s, c, n - 1) {
            Some(i) => Some(i),
            None => if s[n - 1] == c {
                Some(n - 1)
            } else {
                None
            },
        }
    }
}

/// A frequency brought between MIN and MAX.
pub open spec fn clamp_freq(f: u32) -> u32 {
    if f < 1 {
        1
    } else if f > 9_999_999 {
        9_999_999
    } else {
        f
    }
}

/// What a preference line holds: the word before the first comma and the
/// clamped frequency after it.
pub open spec fn spec_parse_freq_line(line: Seq<char>) -> Result<(Seq<char>, u32), UserFreqError> {
    match first_char(line, ',', line.len() as int) {
        None => Err(UserFreqError::MissingComma),
        Some(i) => match spec_parse_u32(line.subrange(i + 1, line.len() as int)) {
            None => Err(UserFreqError::InvalidFreq),
            Some(f) => Ok((line.subrange(0, i), clamp_freq(f))),
        },
    }
}

/// Reads a preference line: the word and its frequency.
pub fn parse_freq_line(line: &str) -> (r: Result<(String, u32), UserFreqError>)
    ensures
        match spec_parse_freq_line(line@) {
            Ok((w, f)) => r matches Ok((rw, rf)) && rw@ == w && rf == f,
            Err(e) => r == Err::<(String, u32), UserFreqError>(e),
        },
{
    let n = line.unicode_len();
    let mut i: usize = 0;
    while i < n
        invariant
            n == line@.len(),
            0 <= i <= n,
            first_char(line@, ',', i as int) is None,
        decreases n - i,
    {
        if line.get_char(i) == ',' {
            proof {
                lemma_first_char_stays(line@, ',', i + 1, n as int);
            }
            let word = line.substring_char(0, i);
            let freq = line.substring_char(i + 1, n);
            return match parse_u32(freq) {
                None => Err(UserFreqError::InvalidFreq),
                Some(f) => {
                    let c = if f < UserFreq::MIN {
                        UserFreq::MIN
                    } else if f > UserFreq::MAX {
                        UserFreq::MAX
                    } else {
                        f
                    };
                    Ok((word.to_owned(), c))
                },
            };
        }
        i = i + 1;
    }
    Err(UserFreqError::MissingComma)
}

proof fn lemma_first_char_stays(s: Seq<char>, c: char, m: int, n: int)
    requires
        0 < m <= n,
        first_char(s, c, m) is Some,
    ensures
        first_char(s, c, n) == first_char(s, c, m),
    decreases n - m,
{
    if n > m {
        lemma_first_char_stays(s, c, m, n - 1);
    }
}

/// The frequencies, with later entries of a word replacing earlier ones.
pub open spec fn freq_of(entries: Seq<(WordId, u32)>, wid: WordId) -> Option<u32>
    decreases entries.len(),
{
    if entries.len() == 0 {
        None
    } else if entries.last().0 == wid {
        Some(entries.last().1)
    } else {
        freq_of(entries.drop_last(), wid)
    }
}

/// User word preferences: a frequency per word.
#[derive(Debug, Clone)]
pub struct UserFreq {
    freq_table: Vec<(WordId, u32)>,
}

impl UserFreq {
    /// The lowest frequency.
    pub const MIN: u32 = 1;
    /// The highest frequency.
    pub const MAX: u32 = 9_999_999;

    /// The frequency of a word, if set.
    pub closed spec fn spec_get(&self, wid: WordId) -> Option<u32> {
        freq_of(self.freq_table@, wid)
    }

    /// No preference.
    pub fn new() -> (f: UserFreq)
        ensures
            forall|w: WordId| #[trigger] f.spec_get(w) is None,
    {
        UserFreq { freq_table: Vec::new() }
    }

    /// The preferences of `entries`, each a word and its frequency; a word
    /// given twice keeps its last frequency.
    pub fn from_entries(entries: &[(WordId, u32)]) -> (f: UserFreq)
        ensures
            forall|w: WordId| #[trigger] f.spec_get(w) == freq_of(entries@, w),
    {
        let mut freq_table: Vec<(WordId, u32)> = Vec::new();
        let mut i: usize = 0;
        while i < entries.len()
            invariant
                0 <= i <= entries@.len(),
                freq_table@ == entries@.take(i as int),
            decreases entries@.len() - i,
        {
            freq_table.push(entries[i]);
            proof {
                assert(entries@.take(i + 1) =~= entries@.take(i as int).push(entries@[i as int]));
            }
            i = i + 1;
        }
        proof {
            assert(entries@.take(entries@.len() as int) =~= entries@);
        }
        UserFreq { freq_table }
    }

    /// Gets the frequency of a word.
    pub fn get(&self, wid: WordId) -> (r: Option<u32>)
        ensures
            r == self.spec_get(wid),
    {
        let mut i: usize = self.freq_table.len();
        proof {
            assert(self.freq_table@.take(i as int) =~= self.freq_table@);
        }
        while i > 0
            invariant
                0 <= i <= self.freq_table@.len(),
                freq_of(self.freq_table@, wid) == freq_of(self.freq_table@.take(i as int), wid),
            decreases i,
        {
            let e = self.freq_table[i - 1];
            proof {
                let t = self.freq_table@.take(i as int);
                assert(t.drop_last() =~= self.freq_table@.take(i - 1));
                assert(t.last() == e);
            }
            if e.0 == wid {
                return Some(e.1);
            }
            i = i - 1;
        }
        proof {
            assert(self.freq_table@.take(0) =~= Seq::<(WordId, u32)>::empty());
        }
        None
    }
}

} // verus!
