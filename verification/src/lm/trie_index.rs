//! Lookup in a serialized syllable trie.
//!
//! The index is a sequence of 8-byte nodes. An internal node holds the
//! number of its first child (`u32`), its number of children (`u16`) and its
//! syllable (`u16`); the children of a node are contiguous. A leaf node, the
//! first child of the node that ends a phrase, holds the byte offset of its
//! words (`u32`), their byte length (`u16`) and zero. The root is node 0.

use crate::bare::{BareDecoder, BareError};
use crate::dictionary::string_table::{p_data, p_u32, p_uint};
use crate::dictionary::LookupStrategy;
use crate::model::WordId;
use crate::zhuyin::{spec_starts_with, valid_syllable_value, Syllable};
use vstd::prelude::*;

verus! {

/// Why a static dictionary file could not be read.
#[derive(Debug, Clone, Copy, PartialEq, Eq, Structural)]
pub enum StaticDictError {
    /// The input ended early or holds an invalid `uint`.
    Bare(BareError),
    /// The file does not start with `CHSD`.
    InvalidHeader,
    /// The file version is not 0.
    UnknownVersion,
    /// The flags are not 0.
    UnknownFlags,
}

/// The magic bytes `CHSD`.
pub open spec fn spec_dict_magic() -> Seq<u8> {
    seq![0x43u8, 0x48u8, 0x53u8, 0x44u8]
}

/// Parses a static dictionary file: the magic, the version (`uint`, 0), the
/// flags (`u32`, 0), then the index and the word list as `data`.
pub open spec fn spec_parse_dict_file(b: Seq<u8>) -> Result<(Seq<u8>, Seq<u8>), StaticDictError> {
    if b.len() < 4 {
        Err(StaticDictError::Bare(BareError::UnexpectedEof))
    } else if b.take(4) != spec_dict_magic() {
        Err(StaticDictError::InvalidHeader)
    } else {
        match p_uint(b, 4) {
            Err(e) => Err(StaticDictError::Bare(e)),
            Ok((version, p1)) => if version != 0 {
                Err(StaticDictError::UnknownVersion)
            } else {
                match p_u32(b, p1) {
                    Err(e) => Err(StaticDictError::Bare(e)),
                    Ok((flags, p2)) => if flags != 0 {
                        Err(StaticDictError::UnknownFlags)
                    } else {
                        match p_data(b, p2) {
                            Err(e) => Err(StaticDictError::Bare(e)),
                            Ok((index, p3)) => match p_data(b, p3) {
                                Err(e) => Err(StaticDictError::Bare(e)),
                                Ok((words, _)) => Ok((index, words)),
                            },
                        }
                    },
                }
            },
        }
    }
}

/// Reads `data` at the decoder's position, as `p_data` describes it.
pub(crate) fn read_data_at(decoder: &mut BareDecoder, Ghost(b): Ghost<Seq<u8>>) -> (r: Result<Vec<u8>, BareError>)
    requires
        old(decoder).wf(),
        old(decoder).spec_bytes() == b,
    ensures
        final(decoder).wf(),
        final(decoder).spec_bytes() == b,
        match p_data(b, old(decoder).spec_pos() as int) {
            Ok((d, p)) => r matches Ok(v) && v@ == d && final(decoder).spec_pos() == p,
            Err(e) => r == Err::<Vec<u8>, BareError>(e),
        },
{
    let ghost pos = decoder.spec_pos() as int;
    proof {
        assert(decoder.spec_rest() =~= b.subrange(pos, b.len() as int));
    }
    let r = decoder.read_data();
    proof {
        if let Ok((len, q)) = p_uint(b, pos) {
            if q + len <= b.len() {
                assert(b.subrange(pos, b.len() as int).subrange(q - pos, q - pos + len) =~= b.subrange(
                q,
                q + len,
            ));
            }
        }
    }
    r
}

/// Reads a static dictionary file into its index and word list.
pub fn parse_dict_file(bytes: &[u8]) -> (r: Result<(Vec<u8>, Vec<u8>), StaticDictError>)
    ensures
        match spec_parse_dict_file(bytes@) {
            Ok((index, words)) => r matches Ok((i, w)) && i@ == index && w@ == words,
            Err(e) => r == Err::<(Vec<u8>, Vec<u8>), StaticDictError>(e),
        },
{
    let ghost b = bytes@;
    let mut decoder = BareDecoder::new(bytes);
    let magic = match decoder.read_data_exact(4) {
        Ok(m) => m,
        Err(e) => {
            return Err(StaticDictError::Bare(e));
        },
    };
    proof {
        assert(decoder.spec_rest() =~= b.subrange(4, b.len() as int));
    }
    if !(magic[0] == 0x43 && magic[1] == 0x48 && magic[2] == 0x53 && magic[3] == 0x44) {
        proof {
            assert(b.take(4) != spec_dict_magic()) by {
                if b.take(4) == spec_dict_magic() {
                    assert(magic@ == b.take(4));
                }
            }
        }
        return Err(StaticDictError::InvalidHeader);
    }
    proof {
        assert(b.take(4) =~= spec_dict_magic());
    }
    let version = match decoder.read_uint() {
        Ok(v) => v,
        Err(e) => {
            return Err(StaticDictError::Bare(e));
        },
    };
    if version != 0 {
        return Err(StaticDictError::UnknownVersion);
    }
    let ghost p1 = decoder.spec_pos() as int;
    proof {
        assert(decoder.spec_rest() =~= b.subrange(p1, b.len() as int));
    }
    let flags = match decoder.read_u32() {
        Ok(v) => v,
        Err(e) => {
            return Err(StaticDictError::Bare(e));
        },
    };
    proof {
        assert(b.subrange(p1, b.len() as int).take(4) =~= b.subrange(p1, p1 + 4));
    }
    if flags != 0 {
        return Err(StaticDictError::UnknownFlags);
    }
    let index = match read_data_at(&mut decoder, Ghost(b)) {
        Ok(d) => d,
        Err(e) => {
            return Err(StaticDictError::Bare(e));
        },
    };
    let words = match read_data_at(&mut decoder, Ghost(b)) {
        Ok(d) => d,
        Err(e) => {
            return Err(StaticDictError::Bare(e));
        },
    };
    Ok((index, words))
}

/// How the numbers of a trie file are laid out.
#[derive(Debug, Clone, Copy, PartialEq, Eq, Structural)]
pub struct TrieLayout {
    /// Node fields are big endian (else little endian).
    pub big_endian: bool,
    /// Bytes per word id in the word list (little endian), 3 or 4.
    pub word_width: usize,
}

/// The `u16` at `off`.
pub open spec fn u16_at(d: Seq<u8>, off: int, be: bool) -> int {
    if be {
        d[off] * 256 + d[off + 1]
    } else {
        d[off] + d[off + 1] * 256
    }
}

/// The `u32` at `off`.
pub open spec fn u32_at(d: Seq<u8>, off: int, be: bool) -> int {
    if be {
        d[off] * 16777216 + d[off + 1] * 65536 + d[off + 2] * 256 + d[off + 3]
    } else {
        d[off] + d[off + 1] * 256 + d[off + 2] * 65536 + d[off + 3] * 16777216
    }
}

/// Byte offset of the first child of the node at `off`.
pub open spec fn child_begin(d: Seq<u8>, off: int, be: bool) -> int {
    u32_at(d, off, be) * 8
}

/// Byte offset after the last child of the node at `off`.
pub open spec fn child_end(d: Seq<u8>, off: int, be: bool) -> int {
    (u32_at(d, off, be) + u16_at(d, off + 4, be)) * 8
}

/// The children of the node at `off` lie inside the index.
pub open spec fn node_ok(d: Seq<u8>, off: int, be: bool) -> bool {
    child_begin(d, off, be) < child_end(d, off, be) <= d.len()
}

/// Whether a node's syllable matches the syllable searched for.
pub open spec fn syllable_matches(n: int, syl: Syllable, strategy: LookupStrategy) -> bool {
    match strategy {
        LookupStrategy::Standard => n == syl.spec_value(),
        LookupStrategy::FuzzyPartialPrefix => n != 0 && 0 <= n <= u16::MAX && valid_syllable_value(
            n as u16,
        ) && spec_starts_with(n as u16, syl.spec_value()),
    }
}

/// The children of `off` that match `syl`, from child `k` on.
pub open spec fn matching_children(
    d: Seq<u8>,
    off: int,
    be: bool,
    syl: Syllable,
    strategy: LookupStrategy,
    k: int,
) -> Seq<int>
    decreases k,
{
    if k <= 0 {
        Seq::empty()
    } else {
        let prev = matching_children(d, off, be, syl, strategy, k - 1);
        let c = child_begin(d, off, be) + 8 * (k - 1);
        if syllable_matches(u16_at(d, c + 6, be), syl, strategy) {
            prev.push(c)
        } else {
            prev
        }
    }
}

/// The number of children of the node at `off`.
pub open spec fn child_count(d: Seq<u8>, off: int, be: bool) -> int {
    u16_at(d, off + 4, be)
}

/// The children of the node at `off` that match `syl`, or `None` when the
/// node is corrupt.
pub open spec fn node_children(
    d: Seq<u8>,
    off: int,
    be: bool,
    syl: Syllable,
    strategy: LookupStrategy,
) -> Option<Seq<int>> {
    if node_ok(d, off, be) {
        Some(matching_children(d, off, be, syl, strategy, child_count(d, off, be)))
    } else {
        None
    }
}

/// The next layer of the search, or `None` when a node is corrupt.
pub open spec fn expand(d: Seq<u8>, layer: Seq<int>, be: bool, syl: Syllable, strategy: LookupStrategy) -> Option<
    Seq<int>,
>
    decreases layer.len(),
{
    if layer.len() == 0 {
        Some(Seq::empty())
    } else {
        match expand(d, layer.drop_last(), be, syl, strategy) {
            None => None,
            Some(prev) => match node_children(d, layer.last(), be, syl, strategy) {
                None => None,
                Some(cs) => Some(prev + cs),
            },
        }
    }
}

/// The nodes reached by the syllables, or `None` when nothing matches or
/// a node is corrupt.
pub open spec fn descend(d: Seq<u8>, syls: Seq<Syllable>, be: bool, strategy: LookupStrategy) -> Option<
    Seq<int>,
>
    decreases syls.len(),
{
    if syls.len() == 0 {
        Some(seq![0int])
    } else {
        match descend(d, syls.drop_last(), be, strategy) {
            None => None,
            Some(layer) => match expand(d, layer, be, syls.last(), strategy) {
                Some(next) => if next.len() > 0 {
                    Some(next)
                } else {
                    None
                },
                None => None,
            },
        }
    }
}

/// The word id stored at `off` in the word list.
pub open spec fn word_at(data: Seq<u8>, off: int, width: int) -> WordId {
    if width == 3 {
        WordId((data[off] + data[off + 1] * 256 + data[off + 2] * 65536) as u32)
    } else {
        WordId((data[off] + data[off + 1] * 256 + data[off + 2] * 65536 + data[off + 3] * 16777216) as u32)
    }
}

/// The first `k` word ids of the list starting at `begin`.
pub open spec fn words_from(data: Seq<u8>, begin: int, width: int, k: int) -> Seq<WordId>
    decreases k,
{
    if k <= 0 {
        Seq::empty()
    } else {
        words_from(data, begin, width, k - 1).push(word_at(data, begin + width * (k - 1), width))
    }
}

/// The words of the leaf under the node at `n`, or `None` when the node is
/// corrupt. A node whose first child is not a leaf gives no word.
pub open spec fn leaf_words(d: Seq<u8>, data: Seq<u8>, n: int, layout: TrieLayout) -> Option<Seq<WordId>> {
    let be = layout.big_endian;
    let leaf = child_begin(d, n, be);
    if !node_ok(d, n, be) || leaf + 8 > d.len() {
        None
    } else if u16_at(d, leaf + 6, be) != 0 {
        Some(Seq::empty())
    } else {
        let db = u32_at(d, leaf, be);
        let de = db + u16_at(d, leaf + 4, be);
        if db >= de || de > data.len() {
            None
        } else {
            Some(words_from(data, db, layout.word_width as int, (de - db) / (layout.word_width as int)))
        }
    }
}

/// The words of the leaves under the nodes of `layer`, or `None` when a node
/// is corrupt.
pub open spec fn collect(d: Seq<u8>, data: Seq<u8>, layer: Seq<int>, layout: TrieLayout) -> Option<
    Seq<WordId>,
>
    decreases layer.len(),
{
    if layer.len() == 0 {
        Some(Seq::empty())
    } else {
        match collect(d, data, layer.drop_last(), layout) {
            None => None,
            Some(prev) => match leaf_words(d, data, layer.last(), layout) {
                None => None,
                Some(ws) => Some(prev + ws),
            },
        }
    }
}

/// The words of the phrases whose syllables match `syls`, in trie order;
/// nothing when the index is corrupt on the way.
pub open spec fn spec_trie_lookup(
    d: Seq<u8>,
    data: Seq<u8>,
    syls: Seq<Syllable>,
    strategy: LookupStrategy,
    layout: TrieLayout,
) -> Seq<WordId> {
    let be = layout.big_endian;
    if d.len() < 8 || child_begin(d, 0, be) == child_end(d, 0, be) {
        Seq::empty()
    } else {
        match descend(d, syls, be, strategy) {
            None => Seq::empty(),
            Some(layer) => match collect(d, data, layer, layout) {
                None => Seq::empty(),
                Some(ws) => ws,
            },
        }
    }
}

/// Reads the `u16` at `off`.
pub fn read_u16(d: &[u8], off: usize, be: bool) -> (r: u64)
    requires
        off + 2 <= d@.len(),
    ensures
        r == u16_at(d@, off as int, be),
{
    if be {
        (d[off] as u64) * 256 + (d[off + 1] as u64)
    } else {
        (d[off] as u64) + (d[off + 1] as u64) * 256
    }
}

/// Reads the `u32` at `off`.
pub fn read_u32(d: &[u8], off: usize, be: bool) -> (r: u64)
    requires
        off + 4 <= d@.len(),
    ensures
        r == u32_at(d@, off as int, be),
        r < 0x100000000,
{
    if be {
        (d[off] as u64) * 16777216 + (d[off + 1] as u64) * 65536 + (d[off + 2] as u64) * 256 + (d[off
            + 3] as u64)
    } else {
        (d[off] as u64) + (d[off + 1] as u64) * 256 + (d[off + 2] as u64) * 65536 + (d[off
            + 3] as u64) * 16777216
    }
}

fn matches_syllable(n: u64, syl: &Syllable, strategy: LookupStrategy) -> (r: bool)
    requires
        n <= u16::MAX,
    ensures
        r == syllable_matches(n as int, *syl, strategy),
{
    match strategy {
        LookupStrategy::Standard => n == syl.to_u16() as u64,
        LookupStrategy::FuzzyPartialPrefix => {
            if n == 0 {
                return false;
            }
            match Syllable::try_from_u16(n as u16) {
                Some(s) => s.starts_with(*syl),
                None => false,
            }
        },
    }
}

pub open spec fn as_ints(v: Seq<usize>) -> Seq<int> {
    v.map_values(|x: usize| x as int)
}

/// Appends the children of `node` that match `syl` to `next`; `false` when
/// the node is corrupt.
fn push_matching_children(
    index: &[u8],
    node: usize,
    syl: Syllable,
    strategy: LookupStrategy,
    be: bool,
    next: &mut Vec<usize>,
) -> (ok: bool)
    requires
        node + 8 <= index@.len(),
        forall|k: int| 0 <= k < old(next)@.len() ==> #[trigger] old(next)@[k] + 8 <= index@.len(),
    ensures
        ok == (node_children(index@, node as int, be, syl, strategy) is Some),
        ok ==> as_ints(final(next)@) == as_ints(old(next)@) + node_children(
            index@,
            node as int,
            be,
            syl,
            strategy,
        )->0,
        forall|k: int| 0 <= k < final(next)@.len() ==> #[trigger] final(next)@[k] + 8 <= index@.len(),
{
    let ghost d = index@;
    let len = index.len();
    let first = read_u32(index, node, be);
    let count = read_u16(index, node + 4, be);
    let cb = first * 8;
    let ce = (first + count) * 8;
    if cb >= ce || ce > index.len() as u64 {
        return false;
    }
    let ghost base = as_ints(next@);
    let mut c: u64 = 0;
    while c < count
        invariant
            d == index@,
            cb == child_begin(d, node as int, be),
            ce == child_end(d, node as int, be),
            count == child_count(d, node as int, be),
            cb + 8 * count == ce,
            ce <= d.len(),
            d.len() == len,
            0 <= c <= count,
            as_ints(next@) == base + matching_children(d, node as int, be, syl, strategy, c as int),
            forall|k: int| 0 <= k < next@.len() ==> #[trigger] next@[k] + 8 <= d.len(),
        decreases count - c,
    {
        let child = (cb + 8 * c) as usize;
        let ghost before = next@;
        let n = read_u16(index, child + 6, be);
        if matches_syllable(n, &syl, strategy) {
            next.push(child);
            proof {
                assert(as_ints(next@) =~= as_ints(before).push(child as int));
            }
        }
        c = c + 1;
    }
    true
}

/// Appends the words of the leaf under `node` to `result`; `false` when the
/// node is corrupt.
fn push_leaf_words(
    index: &[u8],
    data: &[u8],
    node: usize,
    layout: TrieLayout,
    result: &mut Vec<WordId>,
) -> (ok: bool)
    requires
        node + 8 <= index@.len(),
        layout.word_width == 3 || layout.word_width == 4,
    ensures
        ok == (leaf_words(index@, data@, node as int, layout) is Some),
        ok ==> final(result)@ == old(result)@ + leaf_words(index@, data@, node as int, layout)->0,
{
    let be = layout.big_endian;
    let len = index.len();
    let first = read_u32(index, node, be);
    let cb = first * 8;
    let ce = (first + read_u16(index, node + 4, be)) * 8;
    if cb >= ce || ce > index.len() as u64 || cb + 8 > index.len() as u64 {
        return false;
    }
    let leaf = cb as usize;
    if read_u16(index, leaf + 6, be) != 0 {
        proof {
            assert(old(result)@ + Seq::<WordId>::empty() =~= old(result)@);
        }
        return true;
    }
    let db = read_u32(index, leaf, be);
    let de = db + read_u16(index, leaf + 4, be);
    if db >= de || de > data.len() as u64 {
        return false;
    }
    let width = layout.word_width as u64;
    let total = (de - db) / width;
    let ghost base = result@;
    proof {
        assert(base + words_from(data@, db as int, width as int, 0) =~= base);
    }
    let mut k: u64 = 0;
    while k < total
        invariant
            width == layout.word_width,
            width == 3 || width == 4,
            total == (de - db) / (width as int),
            db < de <= data@.len(),
            0 <= k <= total,
            result@ == base + words_from(data@, db as int, width as int, k as int),
        decreases total - k,
    {
        proof {
            assert(width * k + width <= width * total) by (nonlinear_arith)
                requires
                    k < total,
                    width > 0,
            ;
            assert(width * total <= de - db) by (nonlinear_arith)
                requires
                    total == (de - db) / (width as int),
                    width > 0,
                    de > db,
            ;
        }
        let off = (db + width * k) as usize;
        let w = if width == 3 {
            WordId(
                (data[off] as u32) + (data[off + 1] as u32) * 256 + (data[off + 2] as u32) * 65536,
            )
        } else {
            WordId(
                (data[off] as u32) + (data[off + 1] as u32) * 256 + (data[off + 2] as u32) * 65536
                    + (data[off + 3] as u32) * 16777216,
            )
        };
        result.push(w);
        proof {
            assert(off == db + width * k);
        }
        k = k + 1;
    }
    true
}

/// The nodes reached by the syllables from the root, or `None` when the
/// index is too short, has no root children, nothing matches or a node is
/// corrupt.
pub open spec fn spec_trie_layer(d: Seq<u8>, syls: Seq<Syllable>, be: bool, strategy: LookupStrategy) -> Option<
    Seq<int>,
> {
    if d.len() < 8 || child_begin(d, 0, be) == child_end(d, 0, be) {
        None
    } else {
        descend(d, syls, be, strategy)
    }
}

/// Walks the index from the root along `syllables`: the offsets of the
/// nodes reached.
pub fn trie_descend(index: &[u8], syllables: &[Syllable], strategy: LookupStrategy, be: bool) -> (r:
    Option<Vec<usize>>)
    ensures
        match spec_trie_layer(index@, syllables@, be, strategy) {
            Some(layer) => r matches Some(v) && as_ints(v@) == layer && forall|k: int|
                0 <= k < v@.len() ==> #[trigger] v@[k] + 8 <= index@.len(),
            None => r is None,
        },
{
    let ghost d = index@;
    if index.len() < 8 {
        return None;
    }
    let first = read_u32(index, 0, be);
    if first * 8 == (first + read_u16(index, 4, be)) * 8 {
        return None;
    }
    let mut threads: Vec<usize> = Vec::new();
    threads.push(0);
    proof {
        assert(syllables@.take(0) =~= Seq::<Syllable>::empty());
        assert(as_ints(threads@) =~= seq![0int]);
    }
    let mut i: usize = 0;
    while i < syllables.len()
        invariant
            d == index@,
            !(d.len() < 8 || child_begin(d, 0, be) == child_end(d, 0, be)),
            0 <= i <= syllables@.len(),
            descend(d, syllables@.take(i as int), be, strategy) == Some(as_ints(threads@)),
            forall|k: int| 0 <= k < threads@.len() ==> #[trigger] threads@[k] + 8 <= d.len(),
        decreases syllables@.len() - i,
    {
        let syl = syllables[i];
        let ghost layer = as_ints(threads@);
        proof {
            assert(syllables@.take(i + 1).drop_last() =~= syllables@.take(i as int));
            assert(syllables@.take(i + 1).last() == syl);
            assert(layer.take(0) =~= Seq::<int>::empty());
        }
        let mut next: Vec<usize> = Vec::new();
        proof {
            assert(as_ints(next@) =~= Seq::<int>::empty());
        }
        let mut j: usize = 0;
        while j < threads.len()
            invariant
                d == index@,
                i < syllables@.len(),
                descend(d, syllables@.take(i as int), be, strategy) == Some(layer),
                syllables@.take(i + 1).drop_last() == syllables@.take(i as int),
                syllables@.take(i + 1).last() == syl,
                layer == as_ints(threads@),
                forall|k: int| 0 <= k < threads@.len() ==> #[trigger] threads@[k] + 8 <= d.len(),
                0 <= j <= threads@.len(),
                expand(d, layer.take(j as int), be, syl, strategy) == Some(as_ints(next@)),
                forall|k: int| 0 <= k < next@.len() ==> #[trigger] next@[k] + 8 <= d.len(),
            decreases threads@.len() - j,
        {
            let node = threads[j];
            proof {
                assert(layer.take(j + 1).drop_last() =~= layer.take(j as int));
                assert(layer.take(j + 1).last() == node as int);
            }
            if !push_matching_children(index, node, syl, strategy, be, &mut next) {
                proof {
                    lemma_expand_none_stays(d, layer, be, syl, strategy, j + 1);
                    assert(layer.take(threads@.len() as int) =~= layer);
                    lemma_descend_none_stays(d, syllables@, be, strategy, i + 1);
                }
                return None;
            }
            j = j + 1;
        }
        proof {
            assert(layer.take(threads@.len() as int) =~= layer);
        }
        if next.len() == 0 {
            proof {
                lemma_descend_none_stays(d, syllables@, be, strategy, i + 1);
            }
            return None;
        }
        threads = next;
        i = i + 1;
    }
    proof {
        assert(syllables@.take(syllables@.len() as int) =~= syllables@);
    }
    Some(threads)
}

/// Looks up the words of the phrases spelled by `syllables`.
pub fn trie_lookup(
    index: &[u8],
    data: &[u8],
    syllables: &[Syllable],
    strategy: LookupStrategy,
    layout: TrieLayout,
) -> (r: Vec<WordId>)
    requires
        layout.word_width == 3 || layout.word_width == 4,
    ensures
        r@ == spec_trie_lookup(index@, data@, syllables@, strategy, layout),
{
    let be = layout.big_endian;
    let ghost d = index@;
    let threads = match trie_descend(index, syllables, strategy, be) {
        Some(t) => t,
        None => {
            return Vec::new();
        },
    };
    let ghost layer = as_ints(threads@);
    let mut result: Vec<WordId> = Vec::new();
    proof {
        assert(layer.take(0) =~= Seq::<int>::empty());
    }
    let mut j: usize = 0;
    while j < threads.len()
        invariant
            d == index@,
            be == layout.big_endian,
            !(d.len() < 8 || child_begin(d, 0, be) == child_end(d, 0, be)),
            descend(d, syllables@, be, strategy) == Some(layer),
            layout.word_width == 3 || layout.word_width == 4,
            layer == as_ints(threads@),
            forall|k: int| 0 <= k < threads@.len() ==> #[trigger] threads@[k] + 8 <= d.len(),
            0 <= j <= threads@.len(),
            collect(d, data@, layer.take(j as int), layout) == Some(result@),
        decreases threads@.len() - j,
    {
        let node = threads[j];
        proof {
            assert(layer.take(j + 1).drop_last() =~= layer.take(j as int));
            assert(layer.take(j + 1).last() == node as int);
        }
        if !push_leaf_words(index, data, node, layout, &mut result) {
            proof {
                lemma_collect_none_stays(d, data@, layer, layout, j + 1);
            }
            return Vec::new();
        }
        j = j + 1;
    }
    proof {
        assert(layer.take(threads@.len() as int) =~= layer);
    }
    result
}

proof fn lemma_expand_none_stays(
    d: Seq<u8>,
    layer: Seq<int>,
    be: bool,
    syl: Syllable,
    strategy: LookupStrategy,
    m: int,
)
    requires
        0 < m <= layer.len(),
        expand(d, layer.take(m), be, syl, strategy) is None,
    ensures
        expand(d, layer, be, syl, strategy) is None,
    decreases layer.len() - m,
{
    assert(layer.take(m).drop_last() =~= layer.take(m - 1));
    if m == layer.len() {
        assert(layer.take(m) =~= layer);
    } else {
        assert(layer.take(m + 1).drop_last() =~= layer.take(m));
        lemma_expand_none_stays(d, layer, be, syl, strategy, m + 1);
    }
}

proof fn lemma_descend_none_stays(
    d: Seq<u8>,
    syls: Seq<Syllable>,
    be: bool,
    strategy: LookupStrategy,
    m: int,
)
    requires
        0 < m <= syls.len(),
        descend(d, syls.take(m), be, strategy) is None,
    ensures
        descend(d, syls, be, strategy) is None,
    decreases syls.len() - m,
{
    assert(syls.take(m).drop_last() =~= syls.take(m - 1));
    if m == syls.len() {
        assert(syls.take(m) =~= syls);
    } else {
        assert(syls.take(m + 1).drop_last() =~= syls.take(m));
        lemma_descend_none_stays(d, syls, be, strategy, m + 1);
    }
}

proof fn lemma_collect_none_stays(d: Seq<u8>, data: Seq<u8>, layer: Seq<int>, layout: TrieLayout, m: int)
    requires
        0 < m <= layer.len(),
        collect(d, data, layer.take(m), layout) is None,
    ensures
        collect(d, data, layer, layout) is None,
    decreases layer.len() - m,
{
    if m == layer.len() {
        assert(layer.take(m) =~= layer);
    } else {
        assert(layer.take(m + 1).drop_last() =~= layer.take(m));
        lemma_collect_none_stays(d, data, layer, layout, m + 1);
    }
}

} // verus!
