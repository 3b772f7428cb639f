//! The file of the learned history: its words, then what was learned of
//! single words and of word pairs.
//!
//! ```text
//! "CHHD" version:uint flags:u32 half_life:u32 generation:u64
//! unigram_total:u64 unigram_total_last_gen:u64
//! words: uint, then each word as data
//! unigrams: uint, then each as syllables (uint, then u16 each) word:u32
//!           count:u32 last_gen:u64
//! bigrams: uint, then each as prev:u32 word:u32 count:u32 last_gen:u64
//! ```
//!
//! Words are numbered by their place in the file. Counts and the total are
//! floating point numbers; the file and this module keep their bits.

use crate::bare::{
    lemma_data_roundtrip, lemma_uint_roundtrip, spec_encode_data, spec_encode_uint, BareDecoder,
    BareEncoder, BareError,
};
use crate::dictionary::string_table::{p_data, p_u16, p_u32, p_uint, spec_u16s_le, string_from_utf8};
use crate::lm::static_lm::{p_u64, read_u32_at, read_u64_at, read_uint_at};
use crate::lm::trie_index::read_data_at;
use crate::zhuyin::{valid_syllable_value, Syllable, MAX_PHRASE_LEN};
use vstd::bytes::*;
use vstd::prelude::*;
use vstd::utf8::*;

verus! {

/// What was learned of one word: the syllables it was typed with (packed
/// values), the word's number in the file, the bits of its decayed count and
/// the generation it was last seen in.
#[derive(Debug, Clone, PartialEq, Eq)]
pub struct HistoryUnigram {
    pub syllables: Vec<u16>,
    pub word: u32,
    pub count_bits: u32,
    pub last_gen: u64,
}

/// What was learned of a pair of words: their numbers in the file, the bits
/// of the pair's decayed count and the generation it was last seen in.
#[derive(Debug, Clone, Copy, PartialEq, Eq, Structural)]
pub struct HistoryBigram {
    pub prev: u32,
    pub word: u32,
    pub count_bits: u32,
    pub last_gen: u64,
}

/// The whole history file.
#[derive(Debug, Clone, PartialEq, Eq)]
pub struct HistoryFile {
    pub half_life: u32,
    pub generation: u64,
    pub unigram_total_bits: u64,
    pub unigram_total_last_gen: u64,
    pub words: Vec<String>,
    pub unigrams: Vec<HistoryUnigram>,
    pub bigrams: Vec<HistoryBigram>,
}

/// Why a history file could not be read.
#[derive(Debug, Clone, Copy, PartialEq, Eq, Structural)]
pub enum HistoryError {
    /// A value ran past the end of the input, or a `uint` was malformed.
    Bare(BareError),
    /// The file does not start with `CHHD`.
    InvalidHeader,
    /// The version is not 0.
    UnknownVersion,
    /// The header flags are not 0.
    UnknownFlags,
    /// A word is not valid UTF-8.
    InvalidWord,
    /// A unigram has more syllables than the longest phrase.
    SyllablesTooLong,
    /// A syllable value names no syllable.
    InvalidSyllable,
}

pub type UnigramView = (Seq<u16>, u32, u32, u64);

pub type BigramView = (u32, u32, u32, u64);

/// Half life, generation, total bits, total's generation, words, unigrams,
/// bigrams.
pub type HistoryView = (u32, u64, u64, u64, Seq<Seq<char>>, Seq<UnigramView>, Seq<BigramView>);

pub open spec fn unigram_view(u: HistoryUnigram) -> UnigramView {
    (u.syllables@, u.word, u.count_bits, u.last_gen)
}

pub open spec fn bigram_view(b: HistoryBigram) -> BigramView {
    (b.prev, b.word, b.count_bits, b.last_gen)
}

pub open spec fn history_view(f: HistoryFile) -> HistoryView {
    (
        f.half_life,
        f.generation,
        f.unigram_total_bits,
        f.unigram_total_last_gen,
        f.words@.map_values(|w: String| w@),
        f.unigrams@.map_values(|u: HistoryUnigram| unigram_view(u)),
        f.bigrams@.map_values(|b: HistoryBigram| bigram_view(b)),
    )
}

pub open spec fn history_magic() -> Seq<u8> {
    seq![0x43u8, 0x48u8, 0x48u8, 0x44u8]
}

// ---------------------------------------------------------------------------
// Writing
// ---------------------------------------------------------------------------
pub open spec fn enc_words(ws: Seq<Seq<char>>) -> Seq<u8>
    decreases ws.len(),
{
    if ws.len() == 0 {
        Seq::empty()
    } else {
        enc_words(ws.drop_last()) + spec_encode_data(encode_utf8(ws.last()))
    }
}

pub open spec fn enc_unigram(u: UnigramView) -> Seq<u8> {
    spec_encode_uint(u.0.len()) + spec_u16s_le(u.0) + spec_u32_to_le_bytes(u.1)
        + spec_u32_to_le_bytes(u.2) + spec_u64_to_le_bytes(u.3)
}

pub open spec fn enc_unigrams(us: Seq<UnigramView>) -> Seq<u8>
    decreases us.len(),
{
    if us.len() == 0 {
        Seq::empty()
    } else {
        enc_unigrams(us.drop_last()) + enc_unigram(us.last())
    }
}

pub open spec fn enc_bigram(b: BigramView) -> Seq<u8> {
    spec_u32_to_le_bytes(b.0) + spec_u32_to_le_bytes(b.1) + spec_u32_to_le_bytes(b.2)
        + spec_u64_to_le_bytes(b.3)
}

pub open spec fn enc_bigrams(bs: Seq<BigramView>) -> Seq<u8>
    decreases bs.len(),
{
    if bs.len() == 0 {
        Seq::empty()
    } else {
        enc_bigrams(bs.drop_last()) + enc_bigram(bs.last())
    }
}

/// The three lists: words, unigrams, bigrams, each after its count.
pub open spec fn enc_lists(ws: Seq<Seq<char>>, us: Seq<UnigramView>, bs: Seq<BigramView>) -> Seq<u8> {
    spec_encode_uint(ws.len()) + enc_words(ws) + spec_encode_uint(us.len()) + enc_unigrams(us)
        + spec_encode_uint(bs.len()) + enc_bigrams(bs)
}

/// The header: magic, version, flags and the four numbers.
pub open spec fn enc_header(f: HistoryView) -> Seq<u8> {
    history_magic() + spec_encode_uint(0) + spec_u32_to_le_bytes(0u32) + spec_u32_to_le_bytes(f.0)
        + spec_u64_to_le_bytes(f.1) + spec_u64_to_le_bytes(f.2) + spec_u64_to_le_bytes(f.3)
}

/// The bytes of a history file.
pub open spec fn spec_encode_history(f: HistoryView) -> Seq<u8> {
    enc_header(f) + enc_lists(f.4, f.5, f.6)
}

fn write_unigram(encoder: &mut BareEncoder, u: &HistoryUnigram)
    ensures
        final(encoder).spec_bytes() == old(encoder).spec_bytes() + enc_unigram(unigram_view(*u)),
{
    encoder.write_uint(u.syllables.len() as u64);
    let ghost head = encoder.spec_bytes();
    let mut k: usize = 0;
    while k < u.syllables.len()
        invariant
            0 <= k <= u.syllables@.len(),
            encoder.spec_bytes() == head + spec_u16s_le(u.syllables@.take(k as int)),
        decreases u.syllables@.len() - k,
    {
        encoder.write_u16(u.syllables[k]);
        proof {
            assert(u.syllables@.take(k + 1).drop_last() =~= u.syllables@.take(k as int));
        }
        k += 1;
    }
    proof {
        assert(u.syllables@.take(k as int) =~= u.syllables@);
    }
    encoder.write_u32(u.word);
    encoder.write_u32(u.count_bits);
    encoder.write_u64(u.last_gen);
    proof {
        assert(encoder.spec_bytes() =~= old(encoder).spec_bytes() + enc_unigram(unigram_view(*u)));
    }
}

/// Writes a history file.
pub fn encode_history(file: &HistoryFile) -> (r: Vec<u8>)
    ensures
        r@ == spec_encode_history(history_view(*file)),
{
    let ghost f = history_view(*file);
    let mut encoder = BareEncoder::new(Vec::new());
    encoder.write_data_exact(&[0x43u8, 0x48u8, 0x48u8, 0x44u8]);
    encoder.write_uint(0);
    encoder.write_u32(0);
    encoder.write_u32(file.half_life);
    encoder.write_u64(file.generation);
    encoder.write_u64(file.unigram_total_bits);
    encoder.write_u64(file.unigram_total_last_gen);
    encoder.write_uint(file.words.len() as u64);
    let ghost head = encoder.spec_bytes();
    let mut k: usize = 0;
    while k < file.words.len()
        invariant
            0 <= k <= file.words@.len(),
            f == history_view(*file),
            encoder.spec_bytes() == head + enc_words(f.4.take(k as int)),
        decreases file.words@.len() - k,
    {
        encoder.write_data(file.words[k].as_str().as_bytes());
        proof {
            assert(f.4.take(k + 1).drop_last() =~= f.4.take(k as int));
            assert(f.4[k as int] == file.words@[k as int]@);
        }
        k += 1;
    }
    proof {
        assert(f.4.take(k as int) =~= f.4);
    }
    encoder.write_uint(file.unigrams.len() as u64);
    let ghost head = encoder.spec_bytes();
    let mut k: usize = 0;
    while k < file.unigrams.len()
        invariant
            0 <= k <= file.unigrams@.len(),
            f == history_view(*file),
            encoder.spec_bytes() == head + enc_unigrams(f.5.take(k as int)),
        decreases file.unigrams@.len() - k,
    {
        write_unigram(&mut encoder, &file.unigrams[k]);
        proof {
            assert(f.5.take(k + 1).drop_last() =~= f.5.take(k as int));
            assert(f.5[k as int] == unigram_view(file.unigrams@[k as int]));
        }
        k += 1;
    }
    proof {
        assert(f.5.take(k as int) =~= f.5);
    }
    encoder.write_uint(file.bigrams.len() as u64);
    let ghost head = encoder.spec_bytes();
    let mut k: usize = 0;
    while k < file.bigrams.len()
        invariant
            0 <= k <= file.bigrams@.len(),
            f == history_view(*file),
            encoder.spec_bytes() == head + enc_bigrams(f.6.take(k as int)),
        decreases file.bigrams@.len() - k,
    {
        let b = file.bigrams[k];
        encoder.write_u32(b.prev);
        encoder.write_u32(b.word);
        encoder.write_u32(b.count_bits);
        encoder.write_u64(b.last_gen);
        proof {
            assert(f.6.take(k + 1).drop_last() =~= f.6.take(k as int));
            assert(f.6[k as int] == bigram_view(b));
        }
        k += 1;
    }
    proof {
        assert(f.6.take(k as int) =~= f.6);
    }
    let out = encoder.into_inner();
    proof {
        assert(out@ =~= spec_encode_history(f));
    }
    out
}

// ---------------------------------------------------------------------------
// Reading
// ---------------------------------------------------------------------------
/// A word at `pos`: its data, which must be UTF-8.
pub open spec fn p_word(b: Seq<u8>, pos: int) -> Result<(Seq<char>, int), HistoryError> {
    match p_data(b, pos) {
        Ok((d, p)) => if valid_utf8(d) {
            Ok((decode_utf8(d), p))
        } else {
            Err(HistoryError::InvalidWord)
        },
        Err(e) => Err(HistoryError::Bare(e)),
    }
}

/// `n` words from `pos`.
pub open spec fn p_words(b: Seq<u8>, pos: int, n: nat) -> Result<(Seq<Seq<char>>, int), HistoryError>
    decreases n,
{
    if n == 0 {
        Ok((Seq::empty(), pos))
    } else {
        match p_words(b, pos, (n - 1) as nat) {
            Ok((ws, p)) => match p_word(b, p) {
                Ok((w, p2)) => Ok((ws.push(w), p2)),
                Err(e) => Err(e),
            },
            Err(e) => Err(e),
        }
    }
}

/// `n` syllable values from `pos`, each naming a syllable.
pub open spec fn p_syls(b: Seq<u8>, pos: int, n: nat) -> Result<(Seq<u16>, int), HistoryError>
    decreases n,
{
    if n == 0 {
        Ok((Seq::empty(), pos))
    } else {
        match p_syls(b, pos, (n - 1) as nat) {
            Ok((ss, p)) => match p_u16(b, p) {
                Ok((v, p2)) => if valid_syllable_value(v) {
                    Ok((ss.push(v), p2))
                } else {
                    Err(HistoryError::InvalidSyllable)
                },
                Err(e) => Err(HistoryError::Bare(e)),
            },
            Err(e) => Err(e),
        }
    }
}

/// Three `u32` and a `u64` from `pos`.
pub open spec fn p_tail(b: Seq<u8>, pos: int) -> Result<((u32, u32, u32, u64), int), HistoryError> {
    match p_u32(b, pos) {
        Err(e) => Err(HistoryError::Bare(e)),
        Ok((x, p1)) => match p_u32(b, p1) {
            Err(e) => Err(HistoryError::Bare(e)),
            Ok((y, p2)) => match p_u32(b, p2) {
                Err(e) => Err(HistoryError::Bare(e)),
                Ok((z, p3)) => match p_u64(b, p3) {
                    Err(e) => Err(HistoryError::Bare(e)),
                    Ok((w, p4)) => Ok(((x, y, z, w), p4)),
                },
            },
        },
    }
}

/// A unigram at `pos`.
pub open spec fn p_unigram(b: Seq<u8>, pos: int) -> Result<(UnigramView, int), HistoryError> {
    match p_uint(b, pos) {
        Err(e) => Err(HistoryError::Bare(e)),
        Ok((len, p)) => if len > MAX_PHRASE_LEN {
            Err(HistoryError::SyllablesTooLong)
        } else {
            match p_syls(b, p, len as nat) {
                Err(e) => Err(e),
                Ok((ss, p2)) => match p_u32(b, p2) {
                    Err(e) => Err(HistoryError::Bare(e)),
                    Ok((word, p3)) => match p_u32(b, p3) {
                        Err(e) => Err(HistoryError::Bare(e)),
                        Ok((count, p4)) => match p_u64(b, p4) {
                            Err(e) => Err(HistoryError::Bare(e)),
                            Ok((g, p5)) => Ok(((ss, word, count, g), p5)),
                        },
                    },
                },
            }
        },
    }
}

/// `n` unigrams from `pos`.
pub open spec fn p_unigrams(b: Seq<u8>, pos: int, n: nat) -> Result<(Seq<UnigramView>, int), HistoryError>
    decreases n,
{
    if n == 0 {
        Ok((Seq::empty(), pos))
    } else {
        match p_unigrams(b, pos, (n - 1) as nat) {
            Ok((us, p)) => match p_unigram(b, p) {
                Ok((u, p2)) => Ok((us.push(u), p2)),
                Err(e) => Err(e),
            },
            Err(e) => Err(e),
        }
    }
}

/// `n` bigrams from `pos`.
pub open spec fn p_bigrams(b: Seq<u8>, pos: int, n: nat) -> Result<(Seq<BigramView>, int), HistoryError>
    decreases n,
{
    if n == 0 {
        Ok((Seq::empty(), pos))
    } else {
        match p_bigrams(b, pos, (n - 1) as nat) {
            Ok((bs, p)) => match p_tail(b, p) {
                Ok((t, p2)) => Ok((bs.push(t), p2)),
                Err(e) => Err(e),
            },
            Err(e) => Err(e),
        }
    }
}

/// The three lists from `pos`: the word count is taken modulo 2^32.
pub open spec fn p_lists(b: Seq<u8>, pos: int) -> Result<
    (Seq<Seq<char>>, Seq<UnigramView>, Seq<BigramView>),
    HistoryError,
> {
    match p_uint(b, pos) {
        Err(e) => Err(HistoryError::Bare(e)),
        Ok((wc, p1)) => match p_words(b, p1, (wc % 0x1_0000_0000) as nat) {
            Err(e) => Err(e),
            Ok((ws, p2)) => match p_uint(b, p2) {
                Err(e) => Err(HistoryError::Bare(e)),
                Ok((uc, p3)) => match p_unigrams(b, p3, uc as nat) {
                    Err(e) => Err(e),
                    Ok((us, p4)) => match p_uint(b, p4) {
                        Err(e) => Err(HistoryError::Bare(e)),
                        Ok((bc, p5)) => match p_bigrams(b, p5, bc as nat) {
                            Err(e) => Err(e),
                            Ok((bs, p6)) => Ok((ws, us, bs)),
                        },
                    },
                },
            },
        },
    }
}

/// Reads a history file; bytes after the bigrams are ignored.
pub open spec fn spec_parse_history(b: Seq<u8>) -> Result<HistoryView, HistoryError> {
    if b.len() < 4 {
        Err(HistoryError::Bare(BareError::UnexpectedEof))
    } else if b.take(4) != history_magic() {
        Err(HistoryError::InvalidHeader)
    } else {
        match p_uint(b, 4) {
            Err(e) => Err(HistoryError::Bare(e)),
            Ok((version, p1)) => if version != 0 {
                Err(HistoryError::UnknownVersion)
            } else {
                match p_u32(b, p1) {
                    Err(e) => Err(HistoryError::Bare(e)),
                    Ok((flags, p2)) => if flags != 0 {
                        Err(HistoryError::UnknownFlags)
                    } else {
                        match p_u32(b, p2) {
                            Err(e) => Err(HistoryError::Bare(e)),
                            Ok((hl, p3)) => match p_u64(b, p3) {
                                Err(e) => Err(HistoryError::Bare(e)),
                                Ok((g, p4)) => match p_u64(b, p4) {
                                    Err(e) => Err(HistoryError::Bare(e)),
                                    Ok((tot, p5)) => match p_u64(b, p5) {
                                        Err(e) => Err(HistoryError::Bare(e)),
                                        Ok((tg, p6)) => match p_lists(b, p6) {
                                            Err(e) => Err(e),
                                            Ok((ws, us, bs)) => Ok((hl, g, tot, tg, ws, us, bs)),
                                        },
                                    },
                                },
                            },
                        }
                    },
                }
            },
        }
    }
}

/// Reads a `u16` at the decoder's position, as `p_u16` describes it.
fn read_u16_at(decoder: &mut BareDecoder, Ghost(b): Ghost<Seq<u8>>) -> (r: Result<u16, BareError>)
    requires
        old(decoder).wf(),
        old(decoder).spec_bytes() == b,
    ensures
        final(decoder).wf(),
        final(decoder).spec_bytes() == b,
        match p_u16(b, old(decoder).spec_pos() as int) {
            Ok((v, p)) => r == Ok::<u16, BareError>(v) && final(decoder).spec_pos() == p,
            Err(e) => r == Err::<u16, BareError>(e),
        },
{
    let ghost pos = decoder.spec_pos() as int;
    proof {
        assert(decoder.spec_rest() =~= b.subrange(pos, b.len() as int));
        if pos + 2 <= b.len() {
            assert(b.subrange(pos, b.len() as int).take(2) =~= b.subrange(pos, pos + 2));
        }
    }
    decoder.read_u16()
}

fn parse_word(decoder: &mut BareDecoder, Ghost(b): Ghost<Seq<u8>>) -> (r: Result<String, HistoryError>)
    requires
        old(decoder).wf(),
        old(decoder).spec_bytes() == b,
    ensures
        final(decoder).wf(),
        final(decoder).spec_bytes() == b,
        match p_word(b, old(decoder).spec_pos() as int) {
            Ok((w, p)) => r matches Ok(s) && s@ == w && final(decoder).spec_pos() == p,
            Err(e) => r == Err::<String, HistoryError>(e),
        },
{
    match read_data_at(decoder, Ghost(b)) {
        Err(e) => Err(HistoryError::Bare(e)),
        Ok(d) => match string_from_utf8(d.as_slice()) {
            Some(s) => {
                proof {
                    encode_utf8_decode_utf8(s@);
                }
                Ok(s)
            },
            None => Err(HistoryError::InvalidWord),
        },
    }
}

fn parse_syllables(decoder: &mut BareDecoder, n: u64, Ghost(b): Ghost<Seq<u8>>) -> (r: Result<
    Vec<u16>,
    HistoryError,
>)
    requires
        old(decoder).wf(),
        old(decoder).spec_bytes() == b,
    ensures
        final(decoder).wf(),
        final(decoder).spec_bytes() == b,
        match p_syls(b, old(decoder).spec_pos() as int, n as nat) {
            Ok((ss, p)) => r matches Ok(v) && v@ == ss && final(decoder).spec_pos() == p,
            Err(e) => r == Err::<Vec<u16>, HistoryError>(e),
        },
{
    let ghost pos = decoder.spec_pos() as int;
    let mut out: Vec<u16> = Vec::new();
    let mut i: u64 = 0;
    while i < n
        invariant
            decoder.wf(),
            decoder.spec_bytes() == b,
            pos == old(decoder).spec_pos(),
            i <= n,
            p_syls(b, pos, i as nat) == Ok::<(Seq<u16>, int), HistoryError>(
                (out@, decoder.spec_pos() as int),
            ),
        decreases n - i,
    {
        let v = match read_u16_at(decoder, Ghost(b)) {
            Ok(v) => v,
            Err(e) => {
                proof {
                    assert(p_syls(b, pos, (i + 1) as nat) == Err::<(Seq<u16>, int), HistoryError>(
                        HistoryError::Bare(e),
                    ));
                    lemma_syls_err(b, pos, i as nat, n as nat);
                }
                return Err(HistoryError::Bare(e));
            },
        };
        if Syllable::try_from_u16(v).is_none() {
            proof {
                assert(p_syls(b, pos, (i + 1) as nat) == Err::<(Seq<u16>, int), HistoryError>(
                    HistoryError::InvalidSyllable,
                ));
                lemma_syls_err(b, pos, i as nat, n as nat);
            }
            return Err(HistoryError::InvalidSyllable);
        }
        let ghost before = out@;
        out.push(v);
        proof {
            assert(p_syls(b, pos, (i + 1) as nat) == Ok::<(Seq<u16>, int), HistoryError>(
                (before.push(v), decoder.spec_pos() as int),
            ));
        }
        i += 1;
    }
    Ok(out)
}

proof fn lemma_syls_err(b: Seq<u8>, pos: int, k: nat, m: nat)
    requires
        k < m,
        p_syls(b, pos, k + 1) is Err,
    ensures
        p_syls(b, pos, m) == p_syls(b, pos, k + 1),
    decreases m,
{
    if m > k + 1 {
        lemma_syls_err(b, pos, k, (m - 1) as nat);
    }
}

proof fn lemma_words_err(b: Seq<u8>, pos: int, k: nat, m: nat)
    requires
        k < m,
        p_words(b, pos, k + 1) is Err,
    ensures
        p_words(b, pos, m) == p_words(b, pos, k + 1),
    decreases m,
{
    if m > k + 1 {
        lemma_words_err(b, pos, k, (m - 1) as nat);
    }
}

proof fn lemma_unigrams_err(b: Seq<u8>, pos: int, k: nat, m: nat)
    requires
        k < m,
        p_unigrams(b, pos, k + 1) is Err,
    ensures
        p_unigrams(b, pos, m) == p_unigrams(b, pos, k + 1),
    decreases m,
{
    if m > k + 1 {
        lemma_unigrams_err(b, pos, k, (m - 1) as nat);
    }
}

proof fn lemma_bigrams_err(b: Seq<u8>, pos: int, k: nat, m: nat)
    requires
        k < m,
        p_bigrams(b, pos, k + 1) is Err,
    ensures
        p_bigrams(b, pos, m) == p_bigrams(b, pos, k + 1),
    decreases m,
{
    if m > k + 1 {
        lemma_bigrams_err(b, pos, k, (m - 1) as nat);
    }
}

fn parse_unigram(decoder: &mut BareDecoder, Ghost(b): Ghost<Seq<u8>>) -> (r: Result<
    HistoryUnigram,
    HistoryError,
>)
    requires
        old(decoder).wf(),
        old(decoder).spec_bytes() == b,
    ensures
        final(decoder).wf(),
        final(decoder).spec_bytes() == b,
        match p_unigram(b, old(decoder).spec_pos() as int) {
            Ok((u, p)) => r matches Ok(x) && unigram_view(x) == u && final(decoder).spec_pos() == p,
            Err(e) => r == Err::<HistoryUnigram, HistoryError>(e),
        },
{
    let len = match read_uint_at(decoder, Ghost(b)) {
        Ok(v) => v,
        Err(e) => {
            return Err(HistoryError::Bare(e));
        },
    };
    if len > MAX_PHRASE_LEN as u64 {
        return Err(HistoryError::SyllablesTooLong);
    }
    let syllables = match parse_syllables(decoder, len, Ghost(b)) {
        Ok(s) => s,
        Err(e) => {
            return Err(e);
        },
    };
    let word = match read_u32_at(decoder, Ghost(b)) {
        Ok(v) => v,
        Err(e) => {
            return Err(HistoryError::Bare(e));
        },
    };
    let count_bits = match read_u32_at(decoder, Ghost(b)) {
        Ok(v) => v,
        Err(e) => {
            return Err(HistoryError::Bare(e));
        },
    };
    let last_gen = match read_u64_at(decoder, Ghost(b)) {
        Ok(v) => v,
        Err(e) => {
            return Err(HistoryError::Bare(e));
        },
    };
    Ok(HistoryUnigram { syllables, word, count_bits, last_gen })
}

fn parse_bigram(decoder: &mut BareDecoder, Ghost(b): Ghost<Seq<u8>>) -> (r: Result<
    HistoryBigram,
    HistoryError,
>)
    requires
        old(decoder).wf(),
        old(decoder).spec_bytes() == b,
    ensures
        final(decoder).wf(),
        final(decoder).spec_bytes() == b,
        match p_tail(b, old(decoder).spec_pos() as int) {
            Ok((t, p)) => r matches Ok(x) && bigram_view(x) == t && final(decoder).spec_pos() == p,
            Err(e) => r == Err::<HistoryBigram, HistoryError>(e),
        },
{
    let prev = match read_u32_at(decoder, Ghost(b)) {
        Ok(v) => v,
        Err(e) => {
            return Err(HistoryError::Bare(e));
        },
    };
    let word = match read_u32_at(decoder, Ghost(b)) {
        Ok(v) => v,
        Err(e) => {
            return Err(HistoryError::Bare(e));
        },
    };
    let count_bits = match read_u32_at(decoder, Ghost(b)) {
        Ok(v) => v,
        Err(e) => {
            return Err(HistoryError::Bare(e));
        },
    };
    let last_gen = match read_u64_at(decoder, Ghost(b)) {
        Ok(v) => v,
        Err(e) => {
            return Err(HistoryError::Bare(e));
        },
    };
    Ok(HistoryBigram { prev, word, count_bits, last_gen })
}

fn parse_lists(decoder: &mut BareDecoder, Ghost(b): Ghost<Seq<u8>>) -> (r: Result<
    (Vec<String>, Vec<HistoryUnigram>, Vec<HistoryBigram>),
    HistoryError,
>)
    requires
        old(decoder).wf(),
        old(decoder).spec_bytes() == b,
    ensures
        final(decoder).wf(),
        final(decoder).spec_bytes() == b,
        match p_lists(b, old(decoder).spec_pos() as int) {
            Ok((ws, us, bs)) => r matches Ok((w, u, x)) && w@.map_values(|s: String| s@) == ws
                && u@.map_values(|y: HistoryUnigram| unigram_view(y)) == us && x@.map_values(
                |y: HistoryBigram| bigram_view(y),
            ) == bs,
            Err(e) => r is Err && r->Err_0 == e,
        },
{
    let wc = match read_uint_at(decoder, Ghost(b)) {
        Ok(v) => v,
        Err(e) => {
            return Err(HistoryError::Bare(e));
        },
    };
    let n = wc % 0x1_0000_0000;
    let ghost p0 = old(decoder).spec_pos() as int;
    let ghost p1 = decoder.spec_pos() as int;
    let mut words: Vec<String> = Vec::new();
    proof {
        assert(words@.map_values(|s: String| s@) =~= Seq::<Seq<char>>::empty());
    }
    let mut i: u64 = 0;
    while i < n
        invariant
            decoder.wf(),
            decoder.spec_bytes() == b,
            p0 == old(decoder).spec_pos(),
            p_uint(b, p0) == Ok::<(u64, int), BareError>((wc, p1)),
            n == wc % 0x1_0000_0000,
            i <= n,
            p_words(b, p1, i as nat) == Ok::<(Seq<Seq<char>>, int), HistoryError>(
                (words@.map_values(|s: String| s@), decoder.spec_pos() as int),
            ),
        decreases n - i,
    {
        match parse_word(decoder, Ghost(b)) {
            Ok(w) => {
                let ghost before = words@;
                words.push(w);
                proof {
                    assert(words@.map_values(|s: String| s@) =~= before.map_values(|s: String| s@).push(w@));
                }
            },
            Err(e) => {
                proof {
                    lemma_words_err(b, p1, i as nat, n as nat);
                }
                return Err(e);
            },
        }
        i += 1;
    }
    let uc = match read_uint_at(decoder, Ghost(b)) {
        Ok(v) => v,
        Err(e) => {
            return Err(HistoryError::Bare(e));
        },
    };
    let ghost p3 = decoder.spec_pos() as int;
    let ghost ws = words@.map_values(|s: String| s@);
    let mut unigrams: Vec<HistoryUnigram> = Vec::new();
    proof {
        assert(unigrams@.map_values(|y: HistoryUnigram| unigram_view(y)) =~= Seq::<UnigramView>::empty());
    }
    let mut i: u64 = 0;
    while i < uc
        invariant
            decoder.wf(),
            decoder.spec_bytes() == b,
            p0 == old(decoder).spec_pos(),
            p_uint(b, p0) == Ok::<(u64, int), BareError>((wc, p1)),
            n == wc % 0x1_0000_0000,
            ws == words@.map_values(|s: String| s@),
            p_words(b, p1, n as nat) matches Ok((w0, q)) && w0 == ws && p_uint(b, q) == Ok::<
                (u64, int),
                BareError,
            >((uc, p3)),
            i <= uc,
            p_unigrams(b, p3, i as nat) == Ok::<(Seq<UnigramView>, int), HistoryError>(
                (unigrams@.map_values(|y: HistoryUnigram| unigram_view(y)), decoder.spec_pos() as int),
            ),
        decreases uc - i,
    {
        match parse_unigram(decoder, Ghost(b)) {
            Ok(u) => {
                let ghost before = unigrams@;
                unigrams.push(u);
                proof {
                    assert(unigrams@.map_values(|y: HistoryUnigram| unigram_view(y)) =~= before.map_values(
                        |y: HistoryUnigram| unigram_view(y),
                    ).push(unigram_view(u)));
                }
            },
            Err(e) => {
                proof {
                    lemma_unigrams_err(b, p3, i as nat, uc as nat);
                }
                return Err(e);
            },
        }
        i += 1;
    }
    let bc = match read_uint_at(decoder, Ghost(b)) {
        Ok(v) => v,
        Err(e) => {
            return Err(HistoryError::Bare(e));
        },
    };
    let ghost p5 = decoder.spec_pos() as int;
    let ghost us = unigrams@.map_values(|y: HistoryUnigram| unigram_view(y));
    let mut bigrams: Vec<HistoryBigram> = Vec::new();
    proof {
        assert(bigrams@.map_values(|y: HistoryBigram| bigram_view(y)) =~= Seq::<BigramView>::empty());
    }
    let mut i: u64 = 0;
    while i < bc
        invariant
            decoder.wf(),
            decoder.spec_bytes() == b,
            p0 == old(decoder).spec_pos(),
            p_uint(b, p0) == Ok::<(u64, int), BareError>((wc, p1)),
            n == wc % 0x1_0000_0000,
            ws == words@.map_values(|s: String| s@),
            us == unigrams@.map_values(|y: HistoryUnigram| unigram_view(y)),
            p_words(b, p1, n as nat) matches Ok((w0, q)) && w0 == ws && p_uint(b, q) == Ok::<
                (u64, int),
                BareError,
            >((uc, p3)),
            p_unigrams(b, p3, uc as nat) matches Ok((u0, q2)) && u0 == us && p_uint(b, q2) == Ok::<
                (u64, int),
                BareError,
            >((bc, p5)),
            i <= bc,
            p_bigrams(b, p5, i as nat) == Ok::<(Seq<BigramView>, int), HistoryError>(
                (bigrams@.map_values(|y: HistoryBigram| bigram_view(y)), decoder.spec_pos() as int),
            ),
        decreases bc - i,
    {
        match parse_bigram(decoder, Ghost(b)) {
            Ok(x) => {
                let ghost before = bigrams@;
                bigrams.push(x);
                proof {
                    assert(bigrams@.map_values(|y: HistoryBigram| bigram_view(y)) =~= before.map_values(
                        |y: HistoryBigram| bigram_view(y),
                    ).push(bigram_view(x)));
                }
            },
            Err(e) => {
                proof {
                    lemma_bigrams_err(b, p5, i as nat, bc as nat);
                }
                return Err(e);
            },
        }
        i += 1;
    }
    Ok((words, unigrams, bigrams))
}

/// Reads a history file.
pub fn parse_history_file(bytes: &[u8]) -> (r: Result<HistoryFile, HistoryError>)
    ensures
        match spec_parse_history(bytes@) {
            Ok(v) => r matches Ok(f) && history_view(f) == v,
            Err(e) => r == Err::<HistoryFile, HistoryError>(e),
        },
{
    let ghost b = bytes@;
    let mut decoder = BareDecoder::new(bytes);
    let magic = match decoder.read_data_exact(4) {
        Ok(m) => m,
        Err(e) => {
            return Err(HistoryError::Bare(e));
        },
    };
    if !(magic[0] == 0x43 && magic[1] == 0x48 && magic[2] == 0x48 && magic[3] == 0x44) {
        proof {
            assert(b.take(4) != history_magic()) by {
                assert(magic@ =~= b.take(4));
                if b.take(4) == history_magic() {
                    assert(b.take(4)[0] == 0x43u8);
                }
            }
        }
        return Err(HistoryError::InvalidHeader);
    }
    proof {
        assert(magic@ =~= b.take(4));
        assert(b.take(4) =~= history_magic());
    }
    let version = match read_uint_at(&mut decoder, Ghost(b)) {
        Ok(v) => v,
        Err(e) => {
            return Err(HistoryError::Bare(e));
        },
    };
    if version != 0 {
        return Err(HistoryError::UnknownVersion);
    }
    let flags = match read_u32_at(&mut decoder, Ghost(b)) {
        Ok(v) => v,
        Err(e) => {
            return Err(HistoryError::Bare(e));
        },
    };
    if flags != 0 {
        return Err(HistoryError::UnknownFlags);
    }
    let half_life = match read_u32_at(&mut decoder, Ghost(b)) {
        Ok(v) => v,
        Err(e) => {
            return Err(HistoryError::Bare(e));
        },
    };
    let generation = match read_u64_at(&mut decoder, Ghost(b)) {
        Ok(v) => v,
        Err(e) => {
            return Err(HistoryError::Bare(e));
        },
    };
    let unigram_total_bits = match read_u64_at(&mut decoder, Ghost(b)) {
        Ok(v) => v,
        Err(e) => {
            return Err(HistoryError::Bare(e));
        },
    };
    let unigram_total_last_gen = match read_u64_at(&mut decoder, Ghost(b)) {
        Ok(v) => v,
        Err(e) => {
            return Err(HistoryError::Bare(e));
        },
    };
    match parse_lists(&mut decoder, Ghost(b)) {
        Ok((words, unigrams, bigrams)) => Ok(
            HistoryFile {
                half_life,
                generation,
                unigram_total_bits,
                unigram_total_last_gen,
                words,
                unigrams,
                bigrams,
            },
        ),
        Err(e) => Err(e),
    }
}

// ---------------------------------------------------------------------------
// Reading back what was written
// ---------------------------------------------------------------------------
/// What a history file can hold so that it reads back as written: fewer
/// than 2^32 words, lists and words whose lengths fit a `uint`, and unigrams
/// of at most [`MAX_PHRASE_LEN`] valid syllables.
pub open spec fn history_encodable(f: HistoryView) -> bool {
    &&& f.4.len() < 0x1_0000_0000
    &&& forall|i: int| 0 <= i < f.4.len() ==> encode_utf8(#[trigger] f.4[i]).len() <= u64::MAX
    &&& f.5.len() <= u64::MAX
    &&& f.6.len() <= u64::MAX
    &&& forall|i: int| 0 <= i < f.5.len() ==> (#[trigger] f.5[i]).0.len() <= MAX_PHRASE_LEN
    &&& forall|i: int, j: int|
        0 <= i < f.5.len() && 0 <= j < f.5[i].0.len() ==> valid_syllable_value(
            #[trigger] f.5[i].0[j],
        )
}

proof fn lemma_uint_at(pre: Seq<u8>, v: u64, rest: Seq<u8>)
    ensures
        p_uint(pre + spec_encode_uint(v as nat) + rest, pre.len() as int) == Ok::<(u64, int), BareError>(
            (v, pre.len() as int + spec_encode_uint(v as nat).len()),
        ),
{
    let b = pre + spec_encode_uint(v as nat) + rest;
    assert(b.subrange(pre.len() as int, b.len() as int) =~= spec_encode_uint(v as nat) + rest);
    lemma_uint_roundtrip(v, rest);
}

proof fn lemma_u32_at(pre: Seq<u8>, v: u32, rest: Seq<u8>)
    ensures
        p_u32(pre + spec_u32_to_le_bytes(v) + rest, pre.len() as int) == Ok::<(u32, int), BareError>(
            (v, pre.len() as int + 4),
        ),
        spec_u32_to_le_bytes(v).len() == 4,
{
    lemma_auto_spec_u32_to_from_le_bytes();
    let b = pre + spec_u32_to_le_bytes(v) + rest;
    assert(b.subrange(pre.len() as int, pre.len() as int + 4) =~= spec_u32_to_le_bytes(v));
}

proof fn lemma_u64_at(pre: Seq<u8>, v: u64, rest: Seq<u8>)
    ensures
        p_u64(pre + spec_u64_to_le_bytes(v) + rest, pre.len() as int) == Ok::<(u64, int), BareError>(
            (v, pre.len() as int + 8),
        ),
        spec_u64_to_le_bytes(v).len() == 8,
{
    lemma_auto_spec_u64_to_from_le_bytes();
    let b = pre + spec_u64_to_le_bytes(v) + rest;
    assert(b.subrange(pre.len() as int, pre.len() as int + 8) =~= spec_u64_to_le_bytes(v));
}

proof fn lemma_word_at(pre: Seq<u8>, w: Seq<char>, rest: Seq<u8>)
    requires
        encode_utf8(w).len() <= u64::MAX,
    ensures
        p_word(pre + spec_encode_data(encode_utf8(w)) + rest, pre.len() as int) == Ok::<
            (Seq<char>, int),
            HistoryError,
        >((w, pre.len() as int + spec_encode_data(encode_utf8(w)).len())),
{
    let d = encode_utf8(w);
    let b = pre + spec_encode_data(d) + rest;
    let n = spec_encode_uint(d.len());
    assert(b.subrange(pre.len() as int, b.len() as int) =~= spec_encode_data(d) + rest);
    lemma_data_roundtrip(d, rest);
    assert(b.subrange(pre.len() as int + n.len(), pre.len() as int + n.len() + d.len()) =~= (spec_encode_data(d)
        + rest).subrange(n.len() as int, (n.len() + d.len()) as int));
    encode_utf8_valid_utf8(w);
    encode_utf8_decode_utf8(w);
}

proof fn lemma_words_roundtrip(pre: Seq<u8>, ws: Seq<Seq<char>>, rest: Seq<u8>)
    requires
        forall|i: int| 0 <= i < ws.len() ==> encode_utf8(#[trigger] ws[i]).len() <= u64::MAX,
    ensures
        p_words(pre + enc_words(ws) + rest, pre.len() as int, ws.len()) == Ok::<
            (Seq<Seq<char>>, int),
            HistoryError,
        >((ws, pre.len() as int + enc_words(ws).len())),
    decreases ws.len(),
{
    if ws.len() == 0 {
        assert(ws =~= Seq::<Seq<char>>::empty());
    } else {
        let d0 = ws.drop_last();
        let x = spec_encode_data(encode_utf8(ws.last()));
        assert(pre + enc_words(ws) + rest =~= pre + enc_words(d0) + (x + rest));
        assert forall|i: int| 0 <= i < d0.len() implies encode_utf8(#[trigger] d0[i]).len() <= u64::MAX by {
            assert(d0[i] == ws[i]);
        }
        lemma_words_roundtrip(pre, d0, x + rest);
        assert(pre + enc_words(ws) + rest =~= (pre + enc_words(d0)) + x + rest);
        assert(encode_utf8(ws[ws.len() - 1]).len() <= u64::MAX);
        lemma_word_at(pre + enc_words(d0), ws.last(), rest);
        assert(d0.push(ws.last()) =~= ws);
        assert((ws.len() - 1) as nat == d0.len());
    }
}

proof fn lemma_syls_roundtrip(pre: Seq<u8>, ss: Seq<u16>, rest: Seq<u8>)
    requires
        forall|j: int| 0 <= j < ss.len() ==> valid_syllable_value(#[trigger] ss[j]),
    ensures
        p_syls(pre + spec_u16s_le(ss) + rest, pre.len() as int, ss.len()) == Ok::<
            (Seq<u16>, int),
            HistoryError,
        >((ss, pre.len() as int + 2 * ss.len())),
        spec_u16s_le(ss).len() == 2 * ss.len(),
    decreases ss.len(),
{
    lemma_auto_spec_u16_to_from_le_bytes();
    if ss.len() > 0 {
        let d0 = ss.drop_last();
        let x = spec_u16_to_le_bytes(ss.last());
        assert(pre + spec_u16s_le(ss) + rest =~= pre + spec_u16s_le(d0) + (x + rest));
        assert forall|j: int| 0 <= j < d0.len() implies valid_syllable_value(#[trigger] d0[j]) by {
            assert(d0[j] == ss[j]);
        }
        lemma_syls_roundtrip(pre, d0, x + rest);
        let b = pre + spec_u16s_le(ss) + rest;
        let p: int = pre.len() as int + 2 * d0.len();
        assert(b.subrange(p, p + 2) =~= x);
        assert(valid_syllable_value(ss[ss.len() - 1]));
        assert(d0.push(ss.last()) =~= ss);
        assert((ss.len() - 1) as nat == d0.len());
    } else {
        assert(spec_u16s_le(ss) =~= Seq::<u8>::empty());
        assert(ss =~= Seq::<u16>::empty());
    }
}

proof fn lemma_unigram_at(pre: Seq<u8>, u: UnigramView, rest: Seq<u8>)
    requires
        u.0.len() <= MAX_PHRASE_LEN,
        forall|j: int| 0 <= j < u.0.len() ==> valid_syllable_value(#[trigger] u.0[j]),
    ensures
        p_unigram(pre + enc_unigram(u) + rest, pre.len() as int) == Ok::<(UnigramView, int), HistoryError>(
            (u, pre.len() as int + enc_unigram(u).len()),
        ),
{
    let b = pre + enc_unigram(u) + rest;
    let e0 = spec_encode_uint(u.0.len());
    let e1 = spec_u16s_le(u.0);
    let e2 = spec_u32_to_le_bytes(u.1);
    let e3 = spec_u32_to_le_bytes(u.2);
    let e4 = spec_u64_to_le_bytes(u.3);
    let len = u.0.len() as u64;
    assert(b =~= pre + e0 + (e1 + e2 + e3 + e4 + rest));
    lemma_uint_at(pre, len, e1 + e2 + e3 + e4 + rest);
    assert(b =~= (pre + e0) + e1 + (e2 + e3 + e4 + rest));
    lemma_syls_roundtrip(pre + e0, u.0, e2 + e3 + e4 + rest);
    assert(b =~= (pre + e0 + e1) + e2 + (e3 + e4 + rest));
    lemma_u32_at(pre + e0 + e1, u.1, e3 + e4 + rest);
    assert(b =~= (pre + e0 + e1 + e2) + e3 + (e4 + rest));
    lemma_u32_at(pre + e0 + e1 + e2, u.2, e4 + rest);
    assert(b =~= (pre + e0 + e1 + e2 + e3) + e4 + rest);
    lemma_u64_at(pre + e0 + e1 + e2 + e3, u.3, rest);
    assert(len as nat == u.0.len());
}

proof fn lemma_unigrams_roundtrip(pre: Seq<u8>, us: Seq<UnigramView>, rest: Seq<u8>)
    requires
        forall|i: int| 0 <= i < us.len() ==> (#[trigger] us[i]).0.len() <= MAX_PHRASE_LEN,
        forall|i: int, j: int|
            0 <= i < us.len() && 0 <= j < us[i].0.len() ==> valid_syllable_value(#[trigger] us[i].0[j]),
    ensures
        p_unigrams(pre + enc_unigrams(us) + rest, pre.len() as int, us.len()) == Ok::<
            (Seq<UnigramView>, int),
            HistoryError,
        >((us, pre.len() as int + enc_unigrams(us).len())),
    decreases us.len(),
{
    if us.len() == 0 {
        assert(us =~= Seq::<UnigramView>::empty());
    } else {
        let d0 = us.drop_last();
        let x = enc_unigram(us.last());
        assert(pre + enc_unigrams(us) + rest =~= pre + enc_unigrams(d0) + (x + rest));
        assert forall|i: int| 0 <= i < d0.len() implies (#[trigger] d0[i]).0.len() <= MAX_PHRASE_LEN by {
            assert(d0[i] == us[i]);
        }
        assert forall|i: int, j: int|
            0 <= i < d0.len() && 0 <= j < d0[i].0.len() implies valid_syllable_value(#[trigger] d0[i].0[j]) by {
            assert(d0[i] == us[i]);
        }
        lemma_unigrams_roundtrip(pre, d0, x + rest);
        assert(pre + enc_unigrams(us) + rest =~= (pre + enc_unigrams(d0)) + x + rest);
        let last = us[us.len() - 1];
        assert(last.0.len() <= MAX_PHRASE_LEN);
        assert forall|j: int| 0 <= j < last.0.len() implies valid_syllable_value(#[trigger] last.0[j]) by {
            assert(valid_syllable_value(us[us.len() - 1].0[j]));
        }
        lemma_unigram_at(pre + enc_unigrams(d0), us.last(), rest);
        assert(d0.push(us.last()) =~= us);
        assert((us.len() - 1) as nat == d0.len());
    }
}

proof fn lemma_tail_at(pre: Seq<u8>, t: BigramView, rest: Seq<u8>)
    ensures
        p_tail(pre + enc_bigram(t) + rest, pre.len() as int) == Ok::<((u32, u32, u32, u64), int), HistoryError>(
            (t, pre.len() as int + enc_bigram(t).len()),
        ),
{
    let b = pre + enc_bigram(t) + rest;
    let e0 = spec_u32_to_le_bytes(t.0);
    let e1 = spec_u32_to_le_bytes(t.1);
    let e2 = spec_u32_to_le_bytes(t.2);
    let e3 = spec_u64_to_le_bytes(t.3);
    assert(b =~= pre + e0 + (e1 + e2 + e3 + rest));
    lemma_u32_at(pre, t.0, e1 + e2 + e3 + rest);
    assert(b =~= (pre + e0) + e1 + (e2 + e3 + rest));
    lemma_u32_at(pre + e0, t.1, e2 + e3 + rest);
    assert(b =~= (pre + e0 + e1) + e2 + (e3 + rest));
    lemma_u32_at(pre + e0 + e1, t.2, e3 + rest);
    assert(b =~= (pre + e0 + e1 + e2) + e3 + rest);
    lemma_u64_at(pre + e0 + e1 + e2, t.3, rest);
}

proof fn lemma_bigrams_roundtrip(pre: Seq<u8>, bs: Seq<BigramView>, rest: Seq<u8>)
    ensures
        p_bigrams(pre + enc_bigrams(bs) + rest, pre.len() as int, bs.len()) == Ok::<
            (Seq<BigramView>, int),
            HistoryError,
        >((bs, pre.len() as int + enc_bigrams(bs).len())),
    decreases bs.len(),
{
    if bs.len() == 0 {
        assert(bs =~= Seq::<BigramView>::empty());
    } else {
        let d0 = bs.drop_last();
        let x = enc_bigram(bs.last());
        assert(pre + enc_bigrams(bs) + rest =~= pre + enc_bigrams(d0) + (x + rest));
        lemma_bigrams_roundtrip(pre, d0, x + rest);
        assert(pre + enc_bigrams(bs) + rest =~= (pre + enc_bigrams(d0)) + x + rest);
        lemma_tail_at(pre + enc_bigrams(d0), bs.last(), rest);
        assert(d0.push(bs.last()) =~= bs);
        assert((bs.len() - 1) as nat == d0.len());
    }
}

proof fn lemma_lists_at(pre: Seq<u8>, f: HistoryView)
    requires
        history_encodable(f),
    ensures
        p_lists(pre + enc_lists(f.4, f.5, f.6), pre.len() as int) == Ok::<
            (Seq<Seq<char>>, Seq<UnigramView>, Seq<BigramView>),
            HistoryError,
        >((f.4, f.5, f.6)),
{
    let b = pre + enc_lists(f.4, f.5, f.6);
    let c0 = spec_encode_uint(f.4.len());
    let c1 = enc_words(f.4);
    let c2 = spec_encode_uint(f.5.len());
    let c3 = enc_unigrams(f.5);
    let c4 = spec_encode_uint(f.6.len());
    let c5 = enc_bigrams(f.6);
    assert(b =~= pre + c0 + (c1 + c2 + c3 + c4 + c5));
    lemma_uint_at(pre, f.4.len() as u64, c1 + c2 + c3 + c4 + c5);
    assert(b =~= (pre + c0) + c1 + (c2 + c3 + c4 + c5));
    assert((f.4.len() as u64) % 0x1_0000_0000 == f.4.len());
    lemma_words_roundtrip(pre + c0, f.4, c2 + c3 + c4 + c5);
    assert(b =~= (pre + c0 + c1) + c2 + (c3 + c4 + c5));
    lemma_uint_at(pre + c0 + c1, f.5.len() as u64, c3 + c4 + c5);
    assert(b =~= (pre + c0 + c1 + c2) + c3 + (c4 + c5));
    lemma_unigrams_roundtrip(pre + c0 + c1 + c2, f.5, c4 + c5);
    assert(b =~= (pre + c0 + c1 + c2 + c3) + c4 + c5);
    lemma_uint_at(pre + c0 + c1 + c2 + c3, f.6.len() as u64, c5);
    assert(b =~= (pre + c0 + c1 + c2 + c3 + c4) + c5 + Seq::<u8>::empty());
    lemma_bigrams_roundtrip(pre + c0 + c1 + c2 + c3 + c4, f.6, Seq::<u8>::empty());
}

/// Reading what was written gives the history back.
pub proof fn lemma_history_roundtrip(f: HistoryView)
    requires
        history_encodable(f),
    ensures
        spec_parse_history(spec_encode_history(f)) == Ok::<HistoryView, HistoryError>(f),
{
    let b = spec_encode_history(f);
    let m = history_magic();
    let a0 = spec_encode_uint(0);
    let a1 = spec_u32_to_le_bytes(0u32);
    let a2 = spec_u32_to_le_bytes(f.0);
    let a3 = spec_u64_to_le_bytes(f.1);
    let a4 = spec_u64_to_le_bytes(f.2);
    let a5 = spec_u64_to_le_bytes(f.3);
    let tail = enc_lists(f.4, f.5, f.6);
    assert(b =~= m + a0 + (a1 + a2 + a3 + a4 + a5 + tail));
    assert(b.take(4) =~= m);
    lemma_uint_at(m, 0, a1 + a2 + a3 + a4 + a5 + tail);
    let h0 = m + a0;
    assert(b =~= h0 + a1 + (a2 + a3 + a4 + a5 + tail));
    lemma_u32_at(h0, 0u32, a2 + a3 + a4 + a5 + tail);
    assert(b =~= (h0 + a1) + a2 + (a3 + a4 + a5 + tail));
    lemma_u32_at(h0 + a1, f.0, a3 + a4 + a5 + tail);
    assert(b =~= (h0 + a1 + a2) + a3 + (a4 + a5 + tail));
    lemma_u64_at(h0 + a1 + a2, f.1, a4 + a5 + tail);
    assert(b =~= (h0 + a1 + a2 + a3) + a4 + (a5 + tail));
    lemma_u64_at(h0 + a1 + a2 + a3, f.2, a5 + tail);
    assert(b =~= (h0 + a1 + a2 + a3 + a4) + a5 + tail);
    lemma_u64_at(h0 + a1 + a2 + a3 + a4, f.3, tail);
    assert(b =~= (h0 + a1 + a2 + a3 + a4 + a5) + tail);
    lemma_lists_at(h0 + a1 + a2 + a3 + a4 + a5, f);
}

} // verus!
