//! Fast and compact indexing of LF delimited strings.
//!
//! File layout (BARE): the magic `CHSW`, the version (`uint`, 0), the flags
//! (`u32`, 0), the number of keys, the number of buckets and the seed of the
//! perfect hash (`u32` each), the displacements (a `uint` count, then `u16`
//! each), and the words as `data`, each word followed by a line feed and
//! placed at the index the perfect hash gives it.

use crate::bare::{
    lemma_data_roundtrip, lemma_uint_roundtrip, spec_decode_uint, spec_encode_data, spec_encode_uint,
    BareDecoder, BareEncoder, BareError,
};
use crate::conversion::{indices_where, lemma_indices_where, strictly_increasing_below};
use crate::dictionary::chd::{build_buckets, key_bytes, spec_try_build, Chd};
use crate::model::{spec_word_orig, WordId, WordOrig, MIN_USER};
use vstd::bytes::*;
use vstd::prelude::*;
use vstd::utf8::*;

verus! {

/// Why a string table could not be read or written.
#[derive(Debug, Clone, Copy, PartialEq, Eq, Structural)]
pub enum StringTableError {
    /// The input ended early or holds an invalid `uint`.
    Bare(BareError),
    /// The file does not start with `CHSW`.
    InvalidHeader,
    /// The file version is not 0.
    UnknownVersion,
    /// The flags are not 0.
    UnknownFlags,
    /// The words are not UTF-8.
    InvalidUtf8,
    /// No seed gives a perfect hash of the words.
    NoPerfectHash,
}

/// ASCII white space, as `u8::is_ascii_whitespace` defines it.
pub open spec fn is_ascii_ws(b: u8) -> bool {
    b == 0x20 || b == 0x09 || b == 0x0a || b == 0x0c || b == 0x0d
}

/// The bytes without trailing ASCII white space.
pub open spec fn trim_end(b: Seq<u8>) -> Seq<u8>
    decreases b.len(),
{
    if b.len() > 0 && is_ascii_ws(b.last()) {
        trim_end(b.drop_last())
    } else {
        b
    }
}

/// Position `i` starts a line: it is the first byte or follows a line feed.
pub open spec fn is_line_start(buf: Seq<u8>, i: int) -> bool {
    0 <= i < buf.len() && (i == 0 || buf[i - 1] == 0x0a)
}

/// The start of every line, as `str::lines` splits the buffer.
pub open spec fn spec_line_starts(buf: Seq<u8>) -> Seq<int> {
    indices_where(
        Seq::new(buf.len(), |i: int| i),
        |i: int| is_line_start(buf, i),
        buf.len() as int,
    )
}

/// The bytes of line `k`, trailing white space and line feed removed.
pub open spec fn spec_line(buf: Seq<u8>, starts: Seq<int>, k: int) -> Seq<u8> {
    let end = if k + 1 < starts.len() {
        starts[k + 1]
    } else {
        buf.len() as int
    };
    trim_end(buf.subrange(starts[k], end))
}

/// The text of line `k`, when it is UTF-8.
pub open spec fn spec_static_text(buf: Seq<u8>, starts: Seq<int>, k: int) -> Option<Seq<char>> {
    if 0 <= k < starts.len() && valid_utf8(spec_line(buf, starts, k)) {
        Some(decode_utf8(spec_line(buf, starts, k)))
    } else {
        None
    }
}

/// The first position of `w` in `ws`.
pub open spec fn first_index(ws: Seq<Seq<char>>, w: Seq<char>, n: int) -> Option<int>
    decreases n,
{
    if n <= 0 {
        None
    } else {
        match first_index(ws, w, n - 1) {
            Some(i) => Some(i),
            None => if ws[n - 1] == w {
                Some(n - 1)
            } else {
                None
            },
        }
    }
}

pub open spec fn strings_view(v: Seq<String>) -> Seq<Seq<char>> {
    v.map_values(|s: String| s@)
}

/// `String::from_utf8`: the bytes as a string when they are valid UTF-8.
#[verifier::external_body]
pub(crate) fn string_from_utf8(bytes: &[u8]) -> (r: Option<String>)
    ensures
        r is Some <==> valid_utf8(bytes@),
        r matches Some(s) ==> encode_utf8(s@) == bytes@,
{
    String::from_utf8(bytes.to_vec()).ok()
}

/// Whether two strings hold the same characters.
pub(crate) fn str_eq(a: &str, b: &str) -> (r: bool)
    ensures
        r == (a@ == b@),
{
    let x = a.as_bytes();
    let y = b.as_bytes();
    proof {
        encode_utf8_decode_utf8(a@);
        encode_utf8_decode_utf8(b@);
    }
    if x.len() != y.len() {
        return false;
    }
    let mut i: usize = 0;
    while i < x.len()
        invariant
            x@ == encode_utf8(a@),
            y@ == encode_utf8(b@),
            x@.len() == y@.len(),
            0 <= i <= x@.len(),
            forall|j: int| 0 <= j < i ==> x@[j] == y@[j],
        decreases x@.len() - i,
    {
        if x[i] != y[i] {
            return false;
        }
        i = i + 1;
    }
    proof {
        assert(x@ =~= y@);
    }
    true
}

/// Fast and compact indexing of LF delimited strings
#[derive(Debug)]
pub struct StringTable {
    chd: Chd,
    buffer: Vec<u8>,
    offset: Vec<usize>,
    words: Vec<String>,
}

/// `t1` is `t0` after interning `word`: the static part stays, and an unknown
/// word joins the user words.
pub open spec fn spec_interns(t0: StringTable, t1: StringTable, word: Seq<char>) -> bool {
    &&& t1.spec_buffer() == t0.spec_buffer()
    &&& t1.spec_offsets() == t0.spec_offsets()
    &&& t1.spec_chd() == t0.spec_chd()
    &&& t1.spec_user_words() == (if t0.spec_get_wid(word) is Some {
        t0.spec_user_words()
    } else {
        t0.spec_user_words().push(word)
    })
}

/// The id that interning `word` into `t` gives: its id if `t` knows it, else
/// the next user id.
pub open spec fn spec_interned(t: StringTable, word: Seq<char>) -> WordId {
    match t.spec_get_wid(word) {
        Some(w) => w,
        None => WordId((MIN_USER + t.spec_user_words().len()) as u32),
    }
}

impl StringTable {
    pub closed spec fn spec_chd(&self) -> Chd {
        self.chd
    }

    /// The static words, line by line.
    pub closed spec fn spec_buffer(&self) -> Seq<u8> {
        self.buffer@
    }

    /// The start of every static line.
    pub closed spec fn spec_offsets(&self) -> Seq<int> {
        self.offset@.map_values(|o: usize| o as int)
    }

    /// The words added at run time, in order.
    pub closed spec fn spec_user_words(&self) -> Seq<Seq<char>> {
        strings_view(self.words@)
    }

    /// The offsets are the starts of the static lines.
    pub open spec fn wf(&self) -> bool {
        self.spec_offsets() == spec_line_starts(self.spec_buffer())
    }

    /// Lookups by word cannot fail: the perfect hash is usable and every
    /// index it gives names a static or a user word.
    pub open spec fn lookups_ok(&self) -> bool {
        &&& self.spec_chd().usable()
        &&& self.spec_chd().num_keys < 0x2000000
        &&& self.spec_user_words().len() < 0xFF000000
    }

    /// The text of a word id.
    pub open spec fn spec_text(&self, wid: WordId) -> Option<Seq<char>> {
        match spec_word_orig(wid.0) {
            WordOrig::Static => spec_static_text(
                self.spec_buffer(),
                self.spec_offsets(),
                wid.0 as int,
            ),
            WordOrig::User => if wid.spec_offset() < self.spec_user_words().len() {
                Some(self.spec_user_words()[wid.spec_offset() as int])
            } else {
                None
            },
            WordOrig::Unknown => None,
        }
    }

    /// The id of a word: the static word the perfect hash points to, when
    /// it is that word, else the first user word equal to it.
    pub open spec fn spec_get_wid(&self, word: Seq<char>) -> Option<WordId> {
        let pos = self.spec_chd().spec_lookup(encode_utf8(word));
        if self.spec_chd().num_keys != 0 && self.spec_text(WordId(pos as u32)) == Some(word) {
            Some(WordId(pos as u32))
        } else {
            match first_index(self.spec_user_words(), word, self.spec_user_words().len() as int) {
                Some(i) => Some(WordId((MIN_USER + i) as u32)),
                None => None,
            }
        }
    }

    /// Creates an empty StringTable
    pub fn new() -> (t: StringTable)
        ensures
            t.wf(),
            t.lookups_ok(),
            t.spec_buffer().len() == 0,
            t.spec_user_words().len() == 0,
            t.spec_chd().num_keys == 0,
    {
        let t = StringTable { chd: Chd::new(), buffer: Vec::new(), offset: Vec::new(), words: Vec::new() };
        proof {
            assert(t.spec_offsets() =~= spec_line_starts(t.spec_buffer()));
        }
        t
    }

    /// Returns the number of strings in the table
    pub fn len(&self) -> (n: usize)
        requires
            self.wf(),
            self.spec_user_words().len() + self.spec_offsets().len() <= usize::MAX,
        ensures
            n == self.spec_user_words().len() + self.spec_offsets().len(),
    {
        self.words.len() + self.offset.len()
    }

    /// Returns the text of a word.
    pub fn get_text(&self, wid: WordId) -> (r: Option<String>)
        requires
            self.wf(),
            spec_word_orig(wid.0) != WordOrig::Unknown,
        ensures
            r matches Some(s) ==> self.spec_text(wid) == Some(s@),
            r is None ==> self.spec_text(wid) is None,
    {
        match wid.orig() {
            WordOrig::Static => {
                let k = wid.0 as usize;
                if k >= self.offset.len() {
                    return None;
                }
                let s = self.offset[k];
                let e = if k + 1 < self.offset.len() {
                    self.offset[k + 1]
                } else {
                    self.buffer.len()
                };
                proof {
                    lemma_line_starts(self.buffer@);
                    let st = self.spec_offsets();
                    assert(st[k as int] == s as int);
                    if k + 1 < st.len() {
                        assert(st[k as int] < st[k + 1]);
                        assert(st[k + 1] == e as int);
                    }
                }
                let mut end = e;
                while end > s && is_ascii_whitespace(self.buffer[end - 1])
                    invariant
                        s <= end <= e <= self.buffer@.len(),
                        trim_end(self.buffer@.subrange(s as int, end as int)) == trim_end(
                            self.buffer@.subrange(s as int, e as int),
                        ),
                    decreases end,
                {
                    proof {
                        let seg = self.buffer@.subrange(s as int, end as int);
                        assert(seg.drop_last() =~= self.buffer@.subrange(s as int, end - 1));
                    }
                    end = end - 1;
                }
                let line = vstd::slice::slice_subrange(self.buffer.as_slice(), s, end);
                proof {
                    let seg = self.buffer@.subrange(s as int, end as int);
                    assert(trim_end(seg) == seg);
                    assert(line@ == spec_line(self.buffer@, self.spec_offsets(), k as int));
                }
                match string_from_utf8(line) {
                    Some(text) => {
                        proof {
                            encode_utf8_decode_utf8(text@);
                        }
                        Some(text)
                    },
                    None => None,
                }
            },
            WordOrig::User => {
                let o = wid.as_offset();
                if o < self.words.len() {
                    Some(self.words[o].clone())
                } else {
                    None
                }
            },
            WordOrig::Unknown => None,
        }
    }

    /// Returns the id of a word, if the table has it.
    pub fn get_wid(&self, word: &str) -> (r: Option<WordId>)
        requires
            self.wf(),
            self.lookups_ok(),
        ensures
            r == self.spec_get_wid(word@),
    {
        if !self.chd.is_empty() {
            let pos = self.chd.lookup(word);
            if let Some(w) = self.get_text(WordId(pos as u32)) {
                if str_eq(w.as_str(), word) {
                    return Some(WordId(pos as u32));
                }
            }
        }
        let mut i: usize = 0;
        while i < self.words.len()
            invariant
                0 <= i <= self.words@.len(),
                self.words@.len() < 0xFF000000,
                !(self.spec_chd().num_keys != 0 && self.spec_text(
                    WordId(self.spec_chd().spec_lookup(encode_utf8(word@)) as u32),
                ) == Some(word@)),
                first_index(self.spec_user_words(), word@, i as int) is None,
            decreases self.words@.len() - i,
        {
            if str_eq(self.words[i].as_str(), word) {
                proof {
                    assert(self.spec_user_words()[i as int] == word@);
                    lemma_first_index_found(self.spec_user_words(), word@, i as int);
                }
                return Some(WordId(MIN_USER + i as u32));
            }
            i = i + 1;
        }
        None
    }

    /// Returns the id of a word, adding it as a user word when the table
    /// does not have it yet.
    pub fn intern(&mut self, word: &str) -> (r: WordId)
        requires
            old(self).wf(),
            old(self).lookups_ok(),
            old(self).spec_user_words().len() + 1 < 0xFF000000,
        ensures
            final(self).wf(),
            final(self).lookups_ok(),
            final(self).spec_buffer() == old(self).spec_buffer(),
            final(self).spec_chd() == old(self).spec_chd(),
            old(self).spec_get_wid(word@) is Some ==> r == old(self).spec_get_wid(word@)->Some_0,
            old(self).spec_get_wid(word@) is Some ==> final(self).spec_user_words() == old(self).spec_user_words(),
            old(self).spec_get_wid(word@) is None ==> r == WordId(
                (MIN_USER + old(self).spec_user_words().len()) as u32,
            ) && final(self).spec_user_words() == old(self).spec_user_words().push(word@),
            final(self).spec_user_words().len() < 0x1000000 ==> final(self).spec_text(r) == Some(word@),
            spec_interns(*old(self), *final(self), word@),
            r == spec_interned(*old(self), word@),
            final(self).spec_get_wid(word@) == Some(r),
            forall|id: WordId|
                old(self).spec_text(id) is Some ==> #[trigger] final(self).spec_text(id) == old(
                    self,
                ).spec_text(id),
    {
        if let Some(wid) = self.get_wid(word) {
            proof {
                let ws = self.spec_user_words();
                if let Some(i) = first_index(ws, word@, ws.len() as int) {
                    lemma_first_index_some(ws, word@, ws.len() as int);
                }
            }
            return wid;
        }
        let wid = MIN_USER + self.words.len() as u32;
        let w = String::from_str(word);
        self.words.push(w);
        proof {
            let ws = self.spec_user_words();
            assert(ws =~= old(self).spec_user_words().push(word@));
            assert(first_index(ws, word@, ws.len() - 1) == first_index(
                old(self).spec_user_words(),
                word@,
                ws.len() - 1,
            )) by {
                lemma_first_index_prefix(old(self).spec_user_words(), ws, word@, ws.len() - 1);
            }
        }
        WordId(wid)
    }
}


// ---------------------------------------------------------------------------
// Reading and writing the file
// ---------------------------------------------------------------------------
pub open spec fn spec_magic() -> Seq<u8> {
    seq![0x43u8, 0x48u8, 0x53u8, 0x57u8]
}

/// A `uint` at `pos`, and the position after it.
pub open spec fn p_uint(b: Seq<u8>, pos: int) -> Result<(u64, int), BareError> {
    match spec_decode_uint(b.subrange(pos, b.len() as int)) {
        Ok((v, n)) => Ok((v, pos + n)),
        Err(e) => Err(e),
    }
}

/// A little endian `u32` at `pos`, and the position after it.
pub open spec fn p_u32(b: Seq<u8>, pos: int) -> Result<(u32, int), BareError> {
    if pos + 4 <= b.len() {
        Ok((spec_u32_from_le_bytes(b.subrange(pos, pos + 4)), pos + 4))
    } else {
        Err(BareError::UnexpectedEof)
    }
}

/// A little endian `u16` at `pos`, and the position after it.
pub open spec fn p_u16(b: Seq<u8>, pos: int) -> Result<(u16, int), BareError> {
    if pos + 2 <= b.len() {
        Ok((spec_u16_from_le_bytes(b.subrange(pos, pos + 2)), pos + 2))
    } else {
        Err(BareError::UnexpectedEof)
    }
}

/// `count` little endian `u16` values from `pos`.
pub open spec fn p_u16s(b: Seq<u8>, pos: int, count: nat) -> Result<(Seq<u16>, int), BareError>
    decreases count,
{
    if count == 0 {
        Ok((Seq::empty(), pos))
    } else {
        match p_u16s(b, pos, (count - 1) as nat) {
            Ok((s, p)) => match p_u16(b, p) {
                Ok((v, p2)) => Ok((s.push(v), p2)),
                Err(e) => Err(e),
            },
            Err(e) => Err(e),
        }
    }
}

/// `data` at `pos`, and the position after it.
pub open spec fn p_data(b: Seq<u8>, pos: int) -> Result<(Seq<u8>, int), BareError> {
    match p_uint(b, pos) {
        Ok((len, p)) => if p + len <= b.len() {
            Ok((b.subrange(p, p + len), p + len))
        } else {
            Err(BareError::UnexpectedEof)
        },
        Err(e) => Err(e),
    }
}

/// What a string table file holds: number of keys, number of buckets,
/// seed, displacements and the word buffer.
pub type TableParts = (u32, u32, u32, Seq<u16>, Seq<u8>);

/// Parses a string table file.
pub open spec fn spec_parse_table(b: Seq<u8>) -> Result<TableParts, StringTableError> {
    if b.len() < 4 {
        Err(StringTableError::Bare(BareError::UnexpectedEof))
    } else if b.take(4) != spec_magic() {
        Err(StringTableError::InvalidHeader)
    } else {
        match p_uint(b, 4) {
            Err(e) => Err(StringTableError::Bare(e)),
            Ok((version, p1)) => if version != 0 {
                Err(StringTableError::UnknownVersion)
            } else {
                match p_u32(b, p1) {
                    Err(e) => Err(StringTableError::Bare(e)),
                    Ok((flags, p2)) => if flags != 0 {
                        Err(StringTableError::UnknownFlags)
                    } else {
                        match (p_u32(b, p2), p_u32(b, p2 + 4), p_u32(b, p2 + 8)) {
                            (Ok((nk, _)), Ok((nb, _)), Ok((seed, p5))) => match p_uint(b, p5) {
                                Err(e) => Err(StringTableError::Bare(e)),
                                Ok((dl, p6)) => match p_u16s(b, p6, dl as nat) {
                                    Err(e) => Err(StringTableError::Bare(e)),
                                    Ok((disp, p7)) => match p_data(b, p7) {
                                        Err(e) => Err(StringTableError::Bare(e)),
                                        Ok((buf, _)) => if valid_utf8(buf) {
                                            Ok((nk, nb, seed, disp, buf))
                                        } else {
                                            Err(StringTableError::InvalidUtf8)
                                        },
                                    },
                                },
                            },
                            _ => Err(StringTableError::Bare(BareError::UnexpectedEof)),
                        }
                    },
                }
            },
        }
    }
}

impl StringTable {
    /// Parses a string table file.
    #[verifier::loop_isolation(false)]
    pub fn from_bytes(bytes: &[u8]) -> (r: Result<StringTable, StringTableError>)
        ensures
            r matches Err(e) ==> spec_parse_table(bytes@) == Err::<TableParts, StringTableError>(e),
            r matches Ok(t) ==> spec_parse_table(bytes@) matches Ok((nk, nb, seed, disp, buf)) && {
                &&& t.wf()
                &&& t.spec_chd().num_keys == nk
                &&& t.spec_chd().num_buckets == nb
                &&& t.spec_chd().seed == seed
                &&& t.spec_chd().displacements@ == disp
                &&& t.spec_buffer() == buf
                &&& t.spec_user_words().len() == 0
            },
            spec_parse_table(bytes@) is Ok ==> r is Ok,
    {
        let ghost b = bytes@;
        let mut decoder = BareDecoder::new(bytes);
        let magic = match decoder.read_data_exact(4) {
            Ok(m) => m,
            Err(e) => {
                return Err(StringTableError::Bare(e));
            },
        };
        proof {
            assert(decoder.spec_rest() =~= b.subrange(4, b.len() as int));
        }
        if !(magic[0] == 0x43 && magic[1] == 0x48 && magic[2] == 0x53 && magic[3] == 0x57) {
            proof {
                assert(b.take(4) != spec_magic()) by {
                    if b.take(4) == spec_magic() {
                        assert(magic@ == b.take(4));
                    }
                }
            }
            return Err(StringTableError::InvalidHeader);
        }
        proof {
            assert(b.take(4) =~= spec_magic());
        }
        let version = match decoder.read_uint() {
            Ok(v) => v,
            Err(e) => {
                return Err(StringTableError::Bare(e));
            },
        };
        if version != 0 {
            return Err(StringTableError::UnknownVersion);
        }
        let ghost p1 = decoder.spec_pos() as int;
        proof {
            assert(decoder.spec_rest() =~= b.subrange(p1, b.len() as int));
        }
        let flags = match decoder.read_u32() {
            Ok(v) => v,
            Err(e) => {
                return Err(StringTableError::Bare(e));
            },
        };
        proof {
            assert(b.subrange(p1, b.len() as int).take(4) =~= b.subrange(p1, p1 + 4));
        }
        if flags != 0 {
            return Err(StringTableError::UnknownFlags);
        }
        let ghost p2 = p1 + 4;
        proof {
            assert(decoder.spec_rest() =~= b.subrange(p2, b.len() as int));
        }
        let num_keys = decoder.read_u32();
        let num_buckets = decoder.read_u32();
        let seed = decoder.read_u32();
        let (num_keys, num_buckets, seed) = match (num_keys, num_buckets, seed) {
            (Ok(a), Ok(c), Ok(d)) => (a, c, d),
            _ => {
                proof {
                    assert(p_u32(b, p2 + 8) is Err);
                }
                return Err(StringTableError::Bare(BareError::UnexpectedEof));
            },
        };
        proof {
            assert(b.subrange(p2, b.len() as int).take(4) =~= b.subrange(p2, p2 + 4));
            assert(b.subrange(p2 + 4, b.len() as int).take(4) =~= b.subrange(p2 + 4, p2 + 8));
            assert(b.subrange(p2 + 8, b.len() as int).take(4) =~= b.subrange(p2 + 8, p2 + 12));
            assert(decoder.spec_rest() =~= b.subrange(p2 + 12, b.len() as int));
        }
        let displacements_len = match decoder.read_uint() {
            Ok(v) => v,
            Err(e) => {
                return Err(StringTableError::Bare(e));
            },
        };
        let ghost p6 = decoder.spec_pos() as int;
        proof {
            assert(decoder.spec_rest() =~= b.subrange(p6, b.len() as int));
        }
        let mut displacements: Vec<u16> = Vec::new();
        let mut i: u64 = 0;
        while i < displacements_len
            invariant
                decoder.wf(),
                decoder.spec_bytes() == b,
                decoder.spec_pos() <= b.len(),
                i <= displacements_len,
                p_u16s(b, p6, i as nat) == Ok::<(Seq<u16>, int), BareError>(
                    (displacements@, decoder.spec_pos() as int),
                ),
            decreases displacements_len - i,
        {
            let ghost pos = decoder.spec_pos() as int;
            let d = match decoder.read_u16() {
                Ok(d) => d,
                Err(e) => {
                    proof {
                        assert(p_u16(b, pos) is Err);
                        assert(p_u16s(b, p6, (i + 1) as nat) == Err::<(Seq<u16>, int), BareError>(e));
                        lemma_p_u16s_err(b, p6, (i + 1) as nat, displacements_len as nat);
                    }
                    return Err(StringTableError::Bare(e));
                },
            };
            proof {
                assert(b.subrange(pos, b.len() as int).take(2) =~= b.subrange(pos, pos + 2));
            }
            displacements.push(d);
            i = i + 1;
        }
        let ghost p7 = decoder.spec_pos() as int;
        proof {
            assert(decoder.spec_rest() =~= b.subrange(p7, b.len() as int));
        }
        let buffer = match decoder.read_data() {
            Ok(d) => d,
            Err(e) => {
                return Err(StringTableError::Bare(e));
            },
        };
        proof {
            assert(b.subrange(p7, b.len() as int).subrange(
                (p_uint(b, p7)->Ok_0.1 - p7),
                (p_uint(b, p7)->Ok_0.1 - p7) + p_uint(b, p7)->Ok_0.0,
            ) =~= b.subrange(
                p_uint(b, p7)->Ok_0.1,
                p_uint(b, p7)->Ok_0.1 + p_uint(b, p7)->Ok_0.0,
            ));
        }
        if string_from_utf8(buffer.as_slice()).is_none() {
            return Err(StringTableError::InvalidUtf8);
        }
        let offset = line_starts(&buffer);
        let t = StringTable {
            chd: Chd {
                num_keys: num_keys as usize,
                num_buckets: num_buckets as usize,
                displacements,
                seed,
            },
            buffer,
            offset,
            words: Vec::new(),
        };
        proof {
            assert(t.spec_user_words() =~= Seq::<Seq<char>>::empty());
        }
        Ok(t)
    }
}

/// An error at some count stays an error for every larger count.
proof fn lemma_p_u16s_err(b: Seq<u8>, pos: int, m: nat, n: nat)
    requires
        m <= n,
        p_u16s(b, pos, m) is Err,
    ensures
        p_u16s(b, pos, n) == p_u16s(b, pos, m),
    decreases n - m,
{
    if n > m {
        lemma_p_u16s_err(b, pos, m, (n - 1) as nat);
    }
}

/// The start of every line of `buf`.
fn line_starts(buf: &Vec<u8>) -> (r: Vec<usize>)
    ensures
        r@.map_values(|o: usize| o as int) == spec_line_starts(buf@),
{
    let ghost s = Seq::new(buf@.len(), |i: int| i);
    let ghost p = |i: int| is_line_start(buf@, i);
    let mut r: Vec<usize> = Vec::new();
    let mut i: usize = 0;
    while i < buf.len()
        invariant
            0 <= i <= buf@.len(),
            s == Seq::new(buf@.len(), |i: int| i),
            p == (|i: int| is_line_start(buf@, i)),
            r@.map_values(|o: usize| o as int) == indices_where(s, p, i as int),
        decreases buf@.len() - i,
    {
        let ghost before = r@;
        if i == 0 || buf[i - 1] == 0x0a {
            r.push(i);
        }
        proof {
            assert(s[i as int] == i as int);
            assert(p(s[i as int]) == (i == 0 || buf@[i - 1] == 0x0a));
            crate::conversion::lemma_indices_step(s, p, i as int, before, r@);
            assert(r@.map_values(|o: usize| o as int) =~= crate::conversion::usize_seq_as_int(r@));
            assert(before.map_values(|o: usize| o as int) =~= crate::conversion::usize_seq_as_int(before));
        }
        i = i + 1;
    }
    r
}


/// The words, each followed by a line feed.
pub open spec fn spec_join_lines(ws: Seq<Seq<u8>>) -> Seq<u8>
    decreases ws.len(),
{
    if ws.len() == 0 {
        Seq::empty()
    } else {
        spec_join_lines(ws.drop_last()) + ws.last() + seq![0x0au8]
    }
}

/// The little endian bytes of each value.
pub open spec fn spec_u16s_le(ds: Seq<u16>) -> Seq<u8>
    decreases ds.len(),
{
    if ds.len() == 0 {
        Seq::empty()
    } else {
        spec_u16s_le(ds.drop_last()) + spec_u16_to_le_bytes(ds.last())
    }
}

/// The bytes of a string table file.
pub open spec fn spec_serialize_table(
    nk: u32,
    nb: u32,
    seed: u32,
    disp: Seq<u16>,
    lines: Seq<Seq<u8>>,
) -> Seq<u8> {
    spec_magic() + spec_encode_uint(0) + spec_u32_to_le_bytes(0) + spec_u32_to_le_bytes(nk)
        + spec_u32_to_le_bytes(nb) + spec_u32_to_le_bytes(seed) + spec_encode_uint(disp.len())
        + spec_u16s_le(disp) + spec_encode_data(spec_join_lines(lines))
}

/// The keys placed at the index the perfect hash gives each of them.
pub open spec fn spec_sorted_by_slot(c: Chd, ks: Seq<Seq<u8>>) -> Seq<Seq<u8>> {
    Seq::new(
        ks.len(),
        |t: int| ks[choose|i: int| 0 <= i < ks.len() && c.spec_lookup(ks[i]) == t],
    )
}

/// Collects words and writes them as a string table.
#[derive(Debug)]
pub struct StringTableBuilder {
    words: Vec<String>,
}

impl StringTableBuilder {
    pub closed spec fn spec_words(&self) -> Seq<Seq<char>> {
        strings_view(self.words@)
    }

    /// The UTF-8 bytes of every word.
    pub open spec fn spec_key_bytes(&self) -> Seq<Seq<u8>> {
        self.spec_words().map_values(|w: Seq<char>| encode_utf8(w))
    }

    pub fn new() -> (b: StringTableBuilder)
        ensures
            b.spec_words().len() == 0,
    {
        StringTableBuilder { words: Vec::new() }
    }

    pub fn insert(&mut self, word: &str)
        ensures
            final(self).spec_words() == old(self).spec_words().push(word@),
    {
        self.words.push(String::from_str(word));
        proof {
            assert(final(self).spec_words() =~= old(self).spec_words().push(word@));
        }
    }

    /// Serializes the words: the perfect hash, then the words in hash order.
    pub fn to_bytes(&self) -> (r: Result<Vec<u8>, StringTableError>)
        requires
            self.spec_words().len() <= u32::MAX - 4,
        ensures
            r matches Ok(b) ==> exists|c: Chd|
                #![trigger c.is_perfect_for(self.spec_key_bytes())]
                c.is_perfect_for(self.spec_key_bytes()) && c.num_buckets <= u32::MAX
                    && b@ == spec_serialize_table(
                    c.num_keys as u32,
                    c.num_buckets as u32,
                    c.seed,
                    c.displacements@,
                    spec_sorted_by_slot(c, self.spec_key_bytes()),
                ),
            r matches Err(e) ==> e == StringTableError::NoPerfectHash,
            r is Err <==> forall|seed: u32| #[trigger] spec_try_build(
                self.spec_key_bytes(),
                build_buckets(self.spec_words().len(), 4),
                seed,
            ) is None,
    {
        proof {
            assert(key_bytes(self.words@) =~= self.spec_key_bytes());
        }
        let chd = match Chd::build(self.words.as_slice(), 4) {
            Some(c) => c,
            None => {
                return Err(StringTableError::NoPerfectHash);
            },
        };
        let ghost kb = key_bytes(self.words@);
        proof {
            assert(kb =~= self.spec_key_bytes());
        }
        let n = self.words.len();
        // the word at each slot
        let mut inv: Vec<usize> = Vec::new();
        let mut t: usize = 0;
        while t < n
            invariant
                0 <= t <= n,
                inv@.len() == t,
            decreases n - t,
        {
            inv.push(0);
            t = t + 1;
        }
        let mut i: usize = 0;
        while i < n
            invariant
                n == self.words@.len() == kb.len(),
                kb == key_bytes(self.words@),
                chd.is_perfect_for(kb),
                0 <= i <= n,
                inv@.len() == n,
                forall|j: int| 0 <= j < i ==> #[trigger] inv@[chd.spec_lookup(kb[j]) as int] == j,
            decreases n - i,
        {
            let pos = chd.lookup(self.words[i].as_str());
            proof {
                assert(kb[i as int] == encode_utf8(self.words@[i as int]@));
                assert forall|j: int| 0 <= j < i implies chd.spec_lookup(kb[j]) != pos by {}
            }
            inv.set(pos, i);
            i = i + 1;
        }
        proof {
            lemma_slots_onto(chd, kb);
        }
        // the words in slot order, each followed by a line feed
        let ghost sorted = spec_sorted_by_slot(chd, kb);
        let mut join: Vec<u8> = Vec::new();
        t = 0;
        while t < n
            invariant
                n == self.words@.len() == kb.len(),
                kb == key_bytes(self.words@),
                chd.is_perfect_for(kb),
                sorted == spec_sorted_by_slot(chd, kb),
                inv@.len() == n,
                forall|j: int| 0 <= j < n ==> #[trigger] inv@[chd.spec_lookup(kb[j]) as int] == j,
                forall|u: int| 0 <= u < n ==> #[trigger] slot_taken(chd, kb, u),
                0 <= t <= n,
                join@ == spec_join_lines(sorted.take(t as int)),
            decreases n - t,
        {
            let j = inv[t];
            proof {
                assert(slot_taken(chd, kb, t as int));
                let w = choose|w: int| 0 <= w < kb.len() && #[trigger] chd.spec_lookup(kb[w]) == t;
                assert(inv@[t as int] == w);
                assert(sorted[t as int] == kb[w]) by {
                    let c = choose|i: int| 0 <= i < kb.len() && chd.spec_lookup(kb[i]) == t;
                    if c != w {
                        assert(chd.spec_lookup(kb[c]) != chd.spec_lookup(kb[w]));
                    }
                }
            }
            let bytes = self.words[j].as_str().as_bytes();
            let mut k: usize = 0;
            let ghost before = join@;
            while k < bytes.len()
                invariant
                    0 <= k <= bytes@.len(),
                    join@ == before + bytes@.take(k as int),
                decreases bytes@.len() - k,
            {
                join.push(bytes[k]);
                proof {
                    assert(bytes@.take(k + 1) =~= bytes@.take(k as int).push(bytes@[k as int]));
                }
                k = k + 1;
            }
            join.push(0x0a);
            proof {
                assert(bytes@.take(bytes@.len() as int) =~= bytes@);
                assert(sorted.take(t + 1).drop_last() =~= sorted.take(t as int));
                assert(bytes@ == kb[j as int]);
            }
            t = t + 1;
        }
        proof {
            assert(sorted.take(n as int) =~= sorted);
        }
        let mut encoder = BareEncoder::new(Vec::new());
        encoder.write_data_exact(&[0x43u8, 0x48u8, 0x53u8, 0x57u8]);
        encoder.write_uint(0);
        encoder.write_u32(0);
        encoder.write_u32(chd.num_keys as u32);
        encoder.write_u32(chd.num_buckets as u32);
        encoder.write_u32(chd.seed);
        encoder.write_uint(chd.displacements.len() as u64);
        let ghost head = encoder.spec_bytes();
        let mut d: usize = 0;
        while d < chd.displacements.len()
            invariant
                0 <= d <= chd.displacements@.len(),
                encoder.spec_bytes() == head + spec_u16s_le(chd.displacements@.take(d as int)),
            decreases chd.displacements@.len() - d,
        {
            encoder.write_u16(chd.displacements[d]);
            proof {
                assert(chd.displacements@.take(d + 1).drop_last() =~= chd.displacements@.take(
                    d as int,
                ));
            }
            d = d + 1;
        }
        proof {
            assert(chd.displacements@.take(d as int) =~= chd.displacements@);
        }
        encoder.write_data(join.as_slice());
        let out = encoder.into_inner();
        proof {
            let c = chd;
            assert(out@ =~= spec_serialize_table(
                c.num_keys as u32,
                c.num_buckets as u32,
                c.seed,
                c.displacements@,
                spec_sorted_by_slot(c, key_bytes(self.words@)),
            ));
            assert(c.is_perfect_for(key_bytes(self.words@)));
        }
        Ok(out)
    }

    /// Builds the table the way reading its serialized form would. When
    /// every word fits on one line, each is found again with its own text.
    pub fn build(self) -> (r: Result<StringTable, StringTableError>)
        requires
            self.spec_words().len() <= u32::MAX - 4,
        ensures
            r matches Ok(t) ==> t.wf() && t.spec_user_words().len() == 0,
            r matches Err(e) ==> e == StringTableError::NoPerfectHash,
            r is Err <==> forall|seed: u32| #[trigger] spec_try_build(
                self.spec_key_bytes(),
                build_buckets(self.spec_words().len(), 4),
                seed,
            ) is None,
            r matches Ok(t) ==> (self.spec_words().len() < 0x1000000 && forall|k: int|
                0 <= k < self.spec_words().len() ==> fits_one_line(
                    encode_utf8(#[trigger] self.spec_words()[k]),
                )) ==> t.lookups_ok() && (forall|i: int|
                0 <= i < self.spec_words().len() ==> #[trigger] t.spec_get_wid(self.spec_words()[i])
                    is Some && t.spec_text(t.spec_get_wid(self.spec_words()[i])->0) == Some(
                    self.spec_words()[i],
                )) && t.spec_offsets().len() == self.spec_words().len() && (forall|i: u32|
                i >= self.spec_words().len() ==> #[trigger] t.spec_text(WordId(i)) is None) && (forall|
                w: Seq<char>|
                !self.spec_words().contains(w) ==> #[trigger] t.spec_get_wid(w) is None),
    {
        let ghost ws = self.spec_words();
        let ghost kb = self.spec_key_bytes();
        let bytes = match self.to_bytes() {
            Ok(b) => b,
            Err(e) => {
                return Err(e);
            },
        };
        let ghost c = choose|c: Chd|
            #![trigger c.is_perfect_for(kb)]
            c.is_perfect_for(kb) && c.num_buckets <= u32::MAX && bytes@ == spec_serialize_table(
                c.num_keys as u32,
                c.num_buckets as u32,
                c.seed,
                c.displacements@,
                spec_sorted_by_slot(c, kb),
            );
        proof {
            let sorted = spec_sorted_by_slot(c, kb);
            lemma_slots_onto(c, kb);
            assert forall|k: int| 0 <= k < sorted.len() implies valid_utf8(#[trigger] sorted[k]) by {
                assert(slot_taken(c, kb, k));
                let j = choose|j: int| 0 <= j < kb.len() && c.spec_lookup(kb[j]) == k;
                assert(sorted[k] == kb[j]);
                encode_utf8_valid_utf8(ws[j]);
            }
            lemma_join_valid(sorted);
            assert(bytes@.len() == bytes.len());
            assert(spec_join_lines(sorted).len() <= u64::MAX) by {
                assert(spec_encode_data(spec_join_lines(sorted)).len() >= spec_join_lines(sorted).len());
            }
            assert(c.displacements@.len() == c.displacements.len());
            lemma_table_roundtrip(
                c.num_keys as u32,
                c.num_buckets as u32,
                c.seed,
                c.displacements@,
                sorted,
            );
        }
        let r = StringTable::from_bytes(bytes.as_slice());
        proof {
            if let Ok(ref t) = r {
                if ws.len() < 0x1000000 && forall|k: int| 0 <= k < ws.len() ==> fits_one_line(
                    encode_utf8(#[trigger] ws[k]),
                ) {
                    assert(kb =~= ws.map_values(|w: Seq<char>| encode_utf8(w)));
                    lemma_built_table_finds(*t, c, ws);
                }
            }
        }
        r
    }
}

/// Some key is sent to index `u`.
pub open spec fn slot_taken(c: Chd, ks: Seq<Seq<u8>>, u: int) -> bool {
    exists|j: int| 0 <= j < ks.len() && #[trigger] c.spec_lookup(ks[j]) == u
}

/// A perfect hash of `n` keys onto `0..n` reaches every index.
pub proof fn lemma_slots_onto(c: Chd, ks: Seq<Seq<u8>>)
    requires
        c.is_perfect_for(ks),
    ensures
        forall|u: int| 0 <= u < ks.len() ==> #[trigger] slot_taken(c, ks, u),
{
    let n = ks.len() as int;
    let dom = vstd::set_lib::set_int_range(0, n);
    let f = |j: int| c.spec_lookup(ks[j]) as int;
    vstd::set_lib::lemma_int_range(0, n);
    assert(vstd::relations::injective_on(f, dom)) by {
        assert forall|a: int, b: int| dom.contains(a) && dom.contains(b) && #[trigger] f(a) == #[trigger] f(b) implies a == b by {
            if a != b {
                assert(c.spec_lookup(ks[a]) != c.spec_lookup(ks[b]));
            }
        }
    }
    let img = dom.map(f);
    vstd::set_lib::lemma_map_size(dom, img, f);
    assert(img.subset_of(dom)) by {
        assert forall|u: int| img.contains(u) implies dom.contains(u) by {
            let j = choose|j: int| dom.contains(j) && f(j) == u;
            assert(c.spec_lookup(ks[j]) < ks.len());
        }
    }
    vstd::set_lib::lemma_subset_equality(img, dom);
    assert forall|u: int| 0 <= u < n implies #[trigger] slot_taken(c, ks, u) by {
        assert(dom.contains(u));
        assert(img.contains(u));
        let j = choose|j: int| dom.contains(j) && f(j) == u;
        assert(c.spec_lookup(ks[j]) == u);
    }
}

/// `u8::is_ascii_whitespace`.
fn is_ascii_whitespace(b: u8) -> (r: bool)
    ensures
        r == is_ascii_ws(b),
{
    b == 0x20 || b == 0x09 || b == 0x0a || b == 0x0c || b == 0x0d
}

proof fn lemma_first_index_found(ws: Seq<Seq<char>>, w: Seq<char>, i: int)
    requires
        0 <= i < ws.len(),
        ws[i] == w,
        first_index(ws, w, i) is None,
    ensures
        first_index(ws, w, ws.len() as int) == Some(i),
    decreases ws.len() - i,
{
    lemma_first_index_stays(ws, w, i + 1, ws.len() as int);
}

proof fn lemma_first_index_prefix(ws1: Seq<Seq<char>>, ws2: Seq<Seq<char>>, w: Seq<char>, n: int)
    requires
        0 <= n <= ws1.len(),
        n <= ws2.len(),
        forall|i: int| 0 <= i < n ==> ws1[i] == ws2[i],
    ensures
        first_index(ws1, w, n) == first_index(ws2, w, n),
    decreases n,
{
    if n > 0 {
        lemma_first_index_prefix(ws1, ws2, w, n - 1);
    }
}

proof fn lemma_first_index_some(ws: Seq<Seq<char>>, w: Seq<char>, n: int)
    requires
        first_index(ws, w, n) is Some,
    ensures
        0 <= first_index(ws, w, n)->0 < n,
        ws[first_index(ws, w, n)->0] == w,
    decreases n,
{
    if n > 0 && first_index(ws, w, n - 1) is Some {
        lemma_first_index_some(ws, w, n - 1);
    }
}

proof fn lemma_first_index_stays(ws: Seq<Seq<char>>, w: Seq<char>, m: int, n: int)
    requires
        0 <= m <= n <= ws.len(),
        first_index(ws, w, m) is Some,
    ensures
        first_index(ws, w, n) == first_index(ws, w, m),
    decreases n - m,
{
    if n > m {
        lemma_first_index_stays(ws, w, m, n - 1);
    }
}

/// The line starts are increasing positions inside the buffer.
pub proof fn lemma_line_starts(buf: Seq<u8>)
    ensures
        strictly_increasing_below(spec_line_starts(buf), buf.len() as int),
        forall|a: int|
            0 <= a < spec_line_starts(buf).len() ==> is_line_start(
                buf,
                #[trigger] spec_line_starts(buf)[a],
            ),
{
    let s = Seq::new(buf.len(), |i: int| i);
    lemma_indices_where(s, |i: int| is_line_start(buf, i), buf.len() as int);
    let st = spec_line_starts(buf);
    assert forall|a: int| 0 <= a < st.len() implies is_line_start(buf, #[trigger] st[a]) by {
        assert(s[st[a]] == st[a]);
    }
}


// ---------------------------------------------------------------------------
// A built table finds its words again
// ---------------------------------------------------------------------------

/// A word fits on one line of the table: no line feed, and no trailing
/// white space that reading the line would drop.
pub open spec fn fits_one_line(b: Seq<u8>) -> bool {
    &&& forall|i: int| 0 <= i < b.len() ==> #[trigger] b[i] != 0x0a
    &&& (b.len() > 0 ==> !is_ascii_ws(b.last()))
}

/// Where each line of `spec_join_lines(ws)` starts.
pub open spec fn line_offsets(ws: Seq<Seq<u8>>) -> Seq<int>
    decreases ws.len(),
{
    if ws.len() == 0 {
        Seq::empty()
    } else {
        line_offsets(ws.drop_last()).push(spec_join_lines(ws.drop_last()).len() as int)
    }
}

/// `indices_where` only reads the positions below `m`.
proof fn lemma_indices_agree(s1: Seq<int>, p1: spec_fn(int) -> bool, s2: Seq<int>, p2: spec_fn(int) -> bool, m: int)
    requires
        0 <= m,
        forall|i: int| 0 <= i < m ==> p1(s1[i]) == p2(s2[i]),
    ensures
        indices_where(s1, p1, m) == indices_where(s2, p2, m),
    decreases m,
{
    if m > 0 {
        lemma_indices_agree(s1, p1, s2, p2, m - 1);
    }
}

/// Positions that fail `p` add nothing.
proof fn lemma_indices_none(s: Seq<int>, p: spec_fn(int) -> bool, m1: int, m2: int)
    requires
        0 <= m1 <= m2,
        forall|i: int| m1 <= i < m2 ==> !p(s[i]),
    ensures
        indices_where(s, p, m2) == indices_where(s, p, m1),
    decreases m2 - m1,
{
    if m2 > m1 {
        lemma_indices_none(s, p, m1, m2 - 1);
    }
}

proof fn lemma_join_len(ws: Seq<Seq<u8>>)
    ensures
        spec_join_lines(ws).len() >= ws.len(),
        ws.len() > 0 ==> spec_join_lines(ws).last() == 0x0a,
    decreases ws.len(),
{
    if ws.len() > 0 {
        lemma_join_len(ws.drop_last());
    }
}

/// The lines of a join of one-line words start at the line offsets.
proof fn lemma_join_line_starts(ws: Seq<Seq<u8>>)
    requires
        forall|k: int| 0 <= k < ws.len() ==> fits_one_line(#[trigger] ws[k]),
    ensures
        spec_line_starts(spec_join_lines(ws)) == line_offsets(ws),
    decreases ws.len(),
{
    if ws.len() > 0 {
        let prev = ws.drop_last();
        assert forall|k: int| 0 <= k < prev.len() implies fits_one_line(#[trigger] prev[k]) by {
            assert(prev[k] == ws[k]);
        }
        lemma_join_line_starts(prev);
        lemma_join_len(prev);
        let b0 = spec_join_lines(prev);
        let b1 = spec_join_lines(ws);
        let w = ws.last();
        assert(b1 == b0 + w + seq![0x0au8]);
        let s0 = Seq::new(b0.len(), |i: int| i);
        let s1 = Seq::new(b1.len(), |i: int| i);
        let p0 = |i: int| is_line_start(b0, i);
        let p1 = |i: int| is_line_start(b1, i);
        assert forall|i: int| 0 <= i < b0.len() implies p1(s1[i]) == p0(s0[i]) by {
            if i > 0 {
                assert(b1[i - 1] == b0[i - 1]);
            }
        }
        lemma_indices_agree(s1, p1, s0, p0, b0.len() as int);
        assert(p1(s1[b0.len() as int])) by {
            if b0.len() > 0 {
                assert(b1[b0.len() - 1] == b0.last());
            }
        }
        assert forall|i: int| b0.len() + 1 <= i < b1.len() implies !p1(s1[i]) by {
            assert(b1[i - 1] == w[i - 1 - b0.len()]);
        }
        lemma_indices_none(s1, p1, b0.len() as int + 1, b1.len() as int);
        assert(spec_line_starts(b1) == indices_where(s1, p1, b1.len() as int));
        assert(indices_where(s1, p1, b0.len() as int + 1) == indices_where(s1, p1, b0.len() as int).push(
            b0.len() as int,
        ));
    }
}


/// Line `k` of the join is word `k` and its line feed.
proof fn lemma_join_line(ws: Seq<Seq<u8>>, k: int)
    requires
        0 <= k < ws.len(),
    ensures
        line_offsets(ws).len() == ws.len(),
        0 <= line_offsets(ws)[k],
        line_offsets(ws)[k] + ws[k].len() + 1 == (if k + 1 < ws.len() {
            line_offsets(ws)[k + 1]
        } else {
            spec_join_lines(ws).len() as int
        }),
        line_offsets(ws)[k] + ws[k].len() + 1 <= spec_join_lines(ws).len(),
        spec_join_lines(ws).subrange(line_offsets(ws)[k], line_offsets(ws)[k] + ws[k].len() + 1)
            == ws[k] + seq![0x0au8],
    decreases ws.len(),
{
    let prev = ws.drop_last();
    let b0 = spec_join_lines(prev);
    let b1 = spec_join_lines(ws);
    assert(b1 == b0 + ws.last() + seq![0x0au8]);
    assert(line_offsets(ws) == line_offsets(prev).push(b0.len() as int));
    if prev.len() > 0 {
        lemma_join_line(prev, 0);
    } else {
        assert(line_offsets(prev) =~= Seq::<int>::empty());
    }
    if k == ws.len() - 1 {
        assert(b1.subrange(b0.len() as int, b1.len() as int) =~= ws[k] + seq![0x0au8]);
    } else {
        lemma_join_line(prev, k);
        assert(prev[k] == ws[k]);
        assert(b1.subrange(line_offsets(ws)[k], line_offsets(ws)[k] + ws[k].len() + 1) =~= b0.subrange(
            line_offsets(ws)[k],
            line_offsets(ws)[k] + ws[k].len() + 1,
        ));
    }
}

/// A one-line word reads back from its line.
proof fn lemma_join_text(ws: Seq<Seq<u8>>, k: int)
    requires
        0 <= k < ws.len(),
        forall|j: int| 0 <= j < ws.len() ==> fits_one_line(#[trigger] ws[j]),
        valid_utf8(ws[k]),
    ensures
        spec_static_text(spec_join_lines(ws), line_offsets(ws), k) == Some(decode_utf8(ws[k])),
{
    lemma_join_line(ws, k);
    let buf = spec_join_lines(ws);
    let st = line_offsets(ws);
    let w = ws[k];
    assert(fits_one_line(w));
    let end = if k + 1 < st.len() {
        st[k + 1]
    } else {
        buf.len() as int
    };
    assert(buf.subrange(st[k], end) == w + seq![0x0au8]);
    assert((w + seq![0x0au8]).drop_last() =~= w);
    assert(trim_end(w + seq![0x0au8]) == trim_end(w));
    assert(trim_end(w) == w);
    assert(spec_line(buf, st, k) == w);
}


/// Little endian `u16` values read back.
proof fn lemma_u16s_roundtrip(pre: Seq<u8>, ds: Seq<u16>, rest: Seq<u8>)
    ensures
        p_u16s(pre + spec_u16s_le(ds) + rest, pre.len() as int, ds.len()) == Ok::<
            (Seq<u16>, int),
            BareError,
        >((ds, pre.len() as int + 2 * ds.len())),
        spec_u16s_le(ds).len() == 2 * ds.len(),
    decreases ds.len(),
{
    lemma_auto_spec_u16_to_from_le_bytes();
    if ds.len() > 0 {
        let d0 = ds.drop_last();
        let x = spec_u16_to_le_bytes(ds.last());
        assert(pre + spec_u16s_le(ds) + rest =~= pre + spec_u16s_le(d0) + (x + rest));
        lemma_u16s_roundtrip(pre, d0, x + rest);
        let b = pre + spec_u16s_le(ds) + rest;
        let p: int = pre.len() as int + 2 * d0.len();
        assert(b.subrange(p, p + 2) =~= x);
        assert(p_u16(b, p) == Ok::<(u16, int), BareError>((ds.last(), p + 2)));
        assert(p_u16s(b, pre.len() as int, d0.len()) == Ok::<(Seq<u16>, int), BareError>((d0, p)));
        assert(d0.push(ds.last()) =~= ds);
        assert((ds.len() - 1) as nat == d0.len());
    } else {
        assert(spec_u16s_le(ds) =~= Seq::<u8>::empty());
        assert(ds =~= Seq::<u16>::empty());
    }
}

/// A table file reads back as the parts it was written from.
#[verifier::rlimit(100)]
#[verifier::spinoff_prover]
pub proof fn lemma_table_roundtrip(nk: u32, nb: u32, seed: u32, disp: Seq<u16>, lines: Seq<Seq<u8>>)
    requires
        valid_utf8(spec_join_lines(lines)),
        disp.len() <= u64::MAX,
        spec_join_lines(lines).len() <= u64::MAX,
    ensures
        spec_parse_table(spec_serialize_table(nk, nb, seed, disp, lines)) == Ok::<
            TableParts,
            StringTableError,
        >((nk, nb, seed, disp, spec_join_lines(lines))),
{
    lemma_auto_spec_u32_to_from_le_bytes();
    let e0 = spec_encode_uint(0);
    let z = spec_u32_to_le_bytes(0);
    let a = spec_u32_to_le_bytes(nk);
    let bb = spec_u32_to_le_bytes(nb);
    let c = spec_u32_to_le_bytes(seed);
    let dl = spec_encode_uint(disp.len());
    let du = spec_u16s_le(disp);
    let buf = spec_join_lines(lines);
    let dd = spec_encode_data(buf);
    let b = spec_serialize_table(nk, nb, seed, disp, lines);
    assert(e0 =~= seq![0u8]);
    assert(b =~= spec_magic() + (e0 + (z + (a + (bb + (c + (dl + (du + dd))))))));
    assert(b.take(4) =~= spec_magic());
    assert(b.subrange(4, b.len() as int) =~= e0 + (z + (a + (bb + (c + (dl + (du + dd)))))));
    lemma_uint_roundtrip(0, z + (a + (bb + (c + (dl + (du + dd))))));
    assert(p_uint(b, 4) == Ok::<(u64, int), BareError>((0u64, 5int)));
    assert(b.subrange(5, 9) =~= z);
    assert(b.subrange(9, 13) =~= a);
    assert(b.subrange(13, 17) =~= bb);
    assert(b.subrange(17, 21) =~= c);
    assert(b.subrange(21, b.len() as int) =~= dl + (du + dd));
    lemma_uint_roundtrip(disp.len() as u64, du + dd);
    let p6: int = 21 + dl.len() as int;
    assert(p_uint(b, 21) == Ok::<(u64, int), BareError>((disp.len() as u64, p6)));
    let pre = b.take(p6);
    assert(b =~= pre + du + dd);
    lemma_u16s_roundtrip(pre, disp, dd);
    let p7: int = p6 + 2 * disp.len();
    assert(b.subrange(p7, b.len() as int) =~= dd + Seq::<u8>::empty());
    lemma_data_roundtrip(buf, Seq::<u8>::empty());
    let n = spec_encode_uint(buf.len()).len() as int;
    assert(b.subrange(p7 + n, p7 + n + buf.len()) =~= (dd + Seq::<u8>::empty()).subrange(
        n,
        n + buf.len(),
    ));
}


/// A join of valid UTF-8 lines is valid UTF-8.
proof fn lemma_join_valid(ws: Seq<Seq<u8>>)
    requires
        forall|k: int| 0 <= k < ws.len() ==> valid_utf8(#[trigger] ws[k]),
    ensures
        valid_utf8(spec_join_lines(ws)),
    decreases ws.len(),
{
    if ws.len() > 0 {
        let prev = ws.drop_last();
        assert forall|k: int| 0 <= k < prev.len() implies valid_utf8(#[trigger] prev[k]) by {
            assert(prev[k] == ws[k]);
        }
        lemma_join_valid(prev);
        assert(valid_utf8(ws.last()));
        assert(valid_utf8(seq![0x0au8])) by {
            let lf = seq!['\n'];
            assert(is_ascii_chars(lf));
            is_ascii_chars_encode_utf8(lf);
            assert(lf[0] as u8 == 0x0a);
            assert(encode_utf8(lf) =~= seq![0x0au8]);
            encode_utf8_valid_utf8(lf);
        }
        valid_utf8_concat(spec_join_lines(prev), ws.last());
        valid_utf8_concat(spec_join_lines(prev) + ws.last(), seq![0x0au8]);
    }
}

/// The table read back from the words a perfect hash placed: every word is
/// found at the index the hash gives it, with its own text.
proof fn lemma_built_table_finds(t: StringTable, c: Chd, ws: Seq<Seq<char>>)
    requires
        c.is_perfect_for(ws.map_values(|w: Seq<char>| encode_utf8(w))),
        ws.len() < 0x1000000,
        forall|k: int| 0 <= k < ws.len() ==> fits_one_line(encode_utf8(#[trigger] ws[k])),
        t.wf(),
        t.spec_chd().num_keys == c.num_keys,
        t.spec_chd().num_buckets == c.num_buckets,
        t.spec_chd().seed == c.seed,
        t.spec_chd().displacements@ == c.displacements@,
        t.spec_buffer() == spec_join_lines(
            spec_sorted_by_slot(c, ws.map_values(|w: Seq<char>| encode_utf8(w))),
        ),
        t.spec_user_words().len() == 0,
    ensures
        t.lookups_ok(),
        forall|i: int|
            0 <= i < ws.len() ==> #[trigger] t.spec_get_wid(ws[i]) == Some(
                WordId(c.spec_lookup(encode_utf8(ws[i])) as u32),
            ) && t.spec_text(WordId(c.spec_lookup(encode_utf8(ws[i])) as u32)) == Some(ws[i]),
        t.spec_offsets().len() == ws.len(),
        forall|i: u32| i >= ws.len() ==> #[trigger] t.spec_text(WordId(i)) is None,
        forall|w: Seq<char>| !ws.contains(w) ==> #[trigger] t.spec_get_wid(w) is None,
{
    let kb = ws.map_values(|w: Seq<char>| encode_utf8(w));
    let sorted = spec_sorted_by_slot(c, kb);
    let n = ws.len();
    lemma_slots_onto(c, kb);
    assert forall|k: int| 0 <= k < n implies fits_one_line(#[trigger] sorted[k]) && valid_utf8(sorted[k]) by {
        assert(slot_taken(c, kb, k));
        let j = choose|j: int| 0 <= j < kb.len() && c.spec_lookup(kb[j]) == k;
        assert(sorted[k] == kb[j]);
        assert(kb[j] == encode_utf8(ws[j]));
        encode_utf8_valid_utf8(ws[j]);
    }
    lemma_join_line_starts(sorted);
    assert forall|i: int| 0 <= i < n implies #[trigger] t.spec_get_wid(ws[i]) == Some(
        WordId(c.spec_lookup(encode_utf8(ws[i])) as u32),
    ) && t.spec_text(WordId(c.spec_lookup(encode_utf8(ws[i])) as u32)) == Some(ws[i]) by {
        let slot = c.spec_lookup(kb[i]);
        assert(kb[i] == encode_utf8(ws[i]));
        assert(slot < n);
        assert(t.spec_chd().spec_lookup(encode_utf8(ws[i])) == slot);
        assert(slot_taken(c, kb, slot as int));
        let j = choose|j: int| 0 <= j < kb.len() && c.spec_lookup(kb[j]) == slot;
        if j != i {
            assert(c.spec_lookup(kb[i]) != c.spec_lookup(kb[j]));
        }
        assert(sorted[slot as int] == kb[i]);
        lemma_join_text(sorted, slot as int);
        encode_utf8_decode_utf8(ws[i]);
        assert(spec_word_orig(slot as u32) == WordOrig::Static);
        assert(t.spec_text(WordId(slot as u32)) == Some(ws[i]));
    }
    if n > 0 {
        lemma_join_line(sorted, 0);
    }
    lemma_join_line_starts(sorted);
    assert(t.spec_offsets().len() == n);
    assert forall|i: u32| i >= ws.len() implies #[trigger] t.spec_text(WordId(i)) is None by {
        if spec_word_orig(i) == WordOrig::User {
            assert(t.spec_user_words().len() == 0);
        }
    }
    assert forall|p: int| 0 <= p < n implies exists|j: int| 0 <= j < n && #[trigger] t.spec_text(WordId(p as u32)) == Some(ws[j]) by {
        assert(slot_taken(c, kb, p));
        let j = choose|j: int| 0 <= j < kb.len() && c.spec_lookup(kb[j]) == p;
        assert(sorted[p] == kb[j]);
        assert(kb[j] == encode_utf8(ws[j]));
        encode_utf8_valid_utf8(ws[j]);
        assert forall|k: int| 0 <= k < n implies fits_one_line(#[trigger] sorted[k]) by {
            assert(slot_taken(c, kb, k));
            let jj = choose|jj: int| 0 <= jj < kb.len() && c.spec_lookup(kb[jj]) == k;
            assert(sorted[k] == kb[jj]);
        }
        lemma_join_line_starts(sorted);
        lemma_join_text(sorted, p);
        encode_utf8_decode_utf8(ws[j]);
        assert(spec_word_orig(p as u32) == WordOrig::Static);
        assert(t.spec_text(WordId(p as u32)) == Some(ws[j]));
    }
    assert forall|w: Seq<char>| !ws.contains(w) implies #[trigger] t.spec_get_wid(w) is None by {
        let pos = t.spec_chd().spec_lookup(encode_utf8(w));
        let p = (pos as u32) as int;
        if p < n {
            let j = choose|j: int| 0 <= j < n && #[trigger] t.spec_text(WordId(p as u32)) == Some(ws[j]);
            assert(ws[j] != w);
        } else {
            assert(t.spec_text(WordId(pos as u32)) is None);
        }
        assert(first_index(t.spec_user_words(), w, 0) is None);
    }
}

} // verus!
