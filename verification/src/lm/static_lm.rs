//! Bigram and unigram language model in delta encoded compressed sparse row
//! (CSR) form.
//!
//! Each row holds the columns that have an entry, ascending; on disk the
//! first column of a row is stored as is and every further one as the
//! difference to the one before it, each as a LEB128 varint. A model is
//! loaded either eagerly, with all columns decoded at once, or lazily, with
//! the varints decoded row by row on each lookup. Values are quantized
//! log-probabilities, one byte each.

use crate::bare::{
    lemma_pow128_bounds, lemma_uint_roundtrip, lemma_uint_step_fits, pow128, spec_decode_uint,
    spec_encode_uint, uint_scan, BareDecoder, BareEncoder, BareError,
};
use crate::dictionary::string_table::{p_u32, p_uint};
use crate::model::WordId;
use vstd::bytes::*;
use vstd::prelude::*;

verus! {

/// The varint at `off`: its value, truncated to 32 bits, and its length.
/// `None` when the input ends inside it or it is longer than five bytes.
pub open spec fn spec_decode_varint(d: Seq<u8>, off: int) -> Option<(u32, nat)> {
    if off < 0 || off > d.len() {
        None
    } else {
        match spec_decode_uint(d.subrange(off, d.len() as int)) {
            Ok((v, n)) => if n <= 5 {
                Some(((v as int % 0x1_0000_0000) as u32, n))
            } else {
                None
            },
            Err(_) => None,
        }
    }
}

/// Appends the LEB128 encoding of `value`.
fn encode_varint(value: u32, buf: &mut Vec<u8>)
    ensures
        final(buf)@ == old(buf)@ + spec_encode_uint(value as nat),
{
    let mut x = value;
    while x >= 0x80
        invariant
            buf@ + spec_encode_uint(x as nat) == old(buf)@ + spec_encode_uint(value as nat),
        decreases x,
    {
        let ghost w = buf@;
        let b: u8 = (x % 128) as u8 + 128;
        buf.push(b);
        proof {
            assert(spec_encode_uint(x as nat) == seq![b] + spec_encode_uint((x / 128) as nat));
            assert(w + (seq![b] + spec_encode_uint((x / 128) as nat)) =~= w.push(b)
                + spec_encode_uint((x / 128) as nat));
        }
        x = x / 128;
    }
    let ghost w = buf@;
    buf.push(x as u8);
    proof {
        assert(w + spec_encode_uint(x as nat) =~= w.push(x as u8));
    }
}

/// Decodes the varint at `offset`: its value and the number of bytes read.
fn decode_varint(data: &[u8], offset: usize) -> (r: Option<(u32, usize)>)
    requires
        offset <= data@.len(),
    ensures
        match spec_decode_varint(data@, offset as int) {
            Some((v, n)) => r == Some((v, n as usize)),
            None => r is None,
        },
{
    let ghost rest = data@.subrange(offset as int, data@.len() as int);
    let mut acc: u64 = 0;
    let mut mul: u64 = 1;
    let mut i: usize = 0;
    while i < 5
        invariant
            offset <= data@.len(),
            rest == data@.subrange(offset as int, data@.len() as int),
            i <= 5,
            mul == pow128(i as nat),
            0 <= acc < mul,
            uint_scan(rest, i as nat, acc as int) == spec_decode_uint(rest),
        decreases 5 - i,
    {
        proof {
            lemma_pow128_bounds(i as nat);
        }
        if i >= data.len() - offset {
            return None;
        }
        let b = data[offset + i];
        proof {
            assert(rest[i as int] == b);
        }
        if b < 0x80 {
            proof {
                lemma_uint_step_fits(acc as int, b as int, i as nat);
            }
            let v = acc + (b as u64) * mul;
            return Some(((v % 0x1_0000_0000) as u32, i + 1));
        }
        proof {
            lemma_uint_step_fits(acc as int, (b % 128) as int, i as nat);
        }
        acc = acc + ((b % 128) as u64) * mul;
        i = i + 1;
        proof {
            lemma_pow128_bounds(i as nat);
            assert(pow128(i as nat) == 128 * pow128((i - 1) as nat));
        }
        mul = mul * 128;
    }
    proof {
        lemma_scan_past_five(rest, acc as int);
    }
    None
}

/// A scan that has not stopped after five bytes reads more than five.
proof fn lemma_scan_past_five(rest: Seq<u8>, acc: int)
    ensures
        match uint_scan(rest, 5, acc) {
            Ok((_, n)) => n > 5,
            Err(_) => true,
        },
{
    lemma_scan_len_at_least(rest, 5, acc);
}

proof fn lemma_scan_len_at_least(rest: Seq<u8>, i: nat, acc: int)
    ensures
        match uint_scan(rest, i, acc) {
            Ok((_, n)) => n > i,
            Err(_) => true,
        },
    decreases 10 - i,
{
    if i < 10 && i < rest.len() && !(i == 9 && rest[i as int] > 1) && rest[i as int] >= 0x80 {
        lemma_scan_len_at_least(rest, i + 1, acc + (rest[i as int] % 128) * pow128(i));
    }
}


/// Why a language model file could not be read.
#[derive(Debug, Clone, Copy, PartialEq, Eq, Structural)]
pub enum StaticLmError {
    /// The input ended early or holds an invalid `uint`.
    Bare(BareError),
    /// The file does not start with `CHLM`.
    UnknownFormat,
    /// The file version is not 0.
    UnknownVersion,
    /// The row table or the column index does not describe a model: a row
    /// whose columns do not decode into its byte range, columns out of
    /// order, or more entries than values.
    Corrupt,
}

/// How the column index is kept in memory after loading.
#[derive(Debug, Clone, Copy, PartialEq, Eq, Structural)]
pub enum LoadMode {
    /// All columns decoded at load time; a lookup is a binary search.
    Eager,
    /// The varints kept as they are and decoded row by row on each lookup.
    Lazy,
}

/// The columns of a row: `count` varints from `off`, each added (modulo
/// 2^32) to the column before it, `prev` before the first. Also the offset
/// after the last varint.
pub open spec fn dec_cols(d: Seq<u8>, off: int, count: nat, prev: u32) -> Option<(Seq<u32>, int)>
    decreases count,
{
    if count == 0 {
        Some((Seq::empty(), off))
    } else {
        match spec_decode_varint(d, off) {
            None => None,
            Some((v, n)) => {
                let c = ((prev + v) % 0x1_0000_0000) as u32;
                match dec_cols(d, off + n, (count - 1) as nat, c) {
                    None => None,
                    Some((cs, e)) => Some((seq![c] + cs, e)),
                }
            },
        }
    }
}

/// Every column is larger than the one before it.
pub open spec fn strictly_increasing(cs: Seq<u32>) -> bool {
    forall|i: int, j: int| 0 <= i < j < cs.len() ==> cs[i] < cs[j]
}

/// The magic bytes `CHLM`.
pub open spec fn spec_lm_magic() -> Seq<u8> {
    seq![0x43u8, 0x48u8, 0x4cu8, 0x4du8]
}

/// A little endian `u64` at `pos`, and the position after it.
pub open spec fn p_u64(b: Seq<u8>, pos: int) -> Result<(u64, int), BareError> {
    if pos + 8 <= b.len() {
        Ok((spec_u64_from_le_bytes(b.subrange(pos, pos + 8)), pos + 8))
    } else {
        Err(BareError::UnexpectedEof)
    }
}

/// `count` little endian `u32` values from `pos`.
pub open spec fn p_u32_list(b: Seq<u8>, pos: int, count: nat) -> Result<(Seq<u32>, int), BareError> {
    if pos + 4 * count <= b.len() {
        Ok(
            (
                Seq::new(count, |k: int| spec_u32_from_le_bytes(b.subrange(pos + 4 * k, pos + 4 * k + 4))),
                pos + 4 * count,
            ),
        )
    } else {
        Err(BareError::UnexpectedEof)
    }
}

/// `len` raw bytes from `pos`.
pub open spec fn p_raw(b: Seq<u8>, pos: int, len: nat) -> Result<(Seq<u8>, int), BareError> {
    if pos + len <= b.len() {
        Ok((b.subrange(pos, pos + len), pos + len))
    } else {
        Err(BareError::UnexpectedEof)
    }
}

/// What a model file holds: the number of rows, the cumulative entry counts
/// of the rows, the byte offsets of the rows in the column index, the column
/// index and the values.
pub type LmParts = (u32, Seq<u32>, Seq<u32>, Seq<u8>, Seq<u8>);

/// Parses a model file: the magic, the version (`uint`, 0), the flags
/// (`u32`, any), the number of rows (`u32`), of values (`u64`) and of
/// column index bytes (`u64`), then the two row tables of `rows + 1` `u32`
/// each, the column index and the values. Bytes after them are ignored.
pub open spec fn spec_parse_lm(b: Seq<u8>) -> Result<LmParts, StaticLmError> {
    if b.len() < 4 {
        Err(StaticLmError::Bare(BareError::UnexpectedEof))
    } else if b.take(4) != spec_lm_magic() {
        Err(StaticLmError::UnknownFormat)
    } else {
        match p_uint(b, 4) {
            Err(e) => Err(StaticLmError::Bare(e)),
            Ok((version, p1)) => if version != 0 {
                Err(StaticLmError::UnknownVersion)
            } else {
                match p_u32(b, p1) {
                    Err(e) => Err(StaticLmError::Bare(e)),
                    Ok((_flags, p2)) => match p_u32(b, p2) {
                        Err(e) => Err(StaticLmError::Bare(e)),
                        Ok((rows, p3)) => match p_u64(b, p3) {
                            Err(e) => Err(StaticLmError::Bare(e)),
                            Ok((num_values, p4)) => match p_u64(b, p4) {
                                Err(e) => Err(StaticLmError::Bare(e)),
                                Ok((num_deltas, p5)) => if rows == u32::MAX {
                                    Err(StaticLmError::Corrupt)
                                } else {
                                    match p_u32_list(b, p5, (rows + 1) as nat) {
                                        Err(e) => Err(StaticLmError::Bare(e)),
                                        Ok((ri, p6)) => match p_u32_list(b, p6, (rows + 1) as nat) {
                                            Err(e) => Err(StaticLmError::Bare(e)),
                                            Ok((ro, p7)) => match p_raw(b, p7, num_deltas as nat) {
                                                Err(e) => Err(StaticLmError::Bare(e)),
                                                Ok((cd, p8)) => match p_raw(b, p8, num_values as nat) {
                                                    Err(e) => Err(StaticLmError::Bare(e)),
                                                    Ok((vals, _)) => Ok((rows, ri, ro, cd, vals)),
                                                },
                                            },
                                        },
                                    }
                                },
                            },
                        },
                    },
                }
            },
        }
    }
}

/// The number of entries of row `r`.
pub open spec fn row_len(p: LmParts, r: int) -> int {
    p.1[r + 1] - p.1[r]
}

/// The columns of row `r`, decoded from the row's byte offset.
pub open spec fn row_cols(p: LmParts, r: int) -> Option<(Seq<u32>, int)> {
    dec_cols(p.3, p.2[r] as int, row_len(p, r) as nat, 0)
}

/// Row `r` holds its entries in ascending column order, encoded exactly in
/// its byte range.
pub open spec fn row_valid(p: LmParts, r: int) -> bool {
    &&& p.1[r] <= p.1[r + 1]
    &&& row_cols(p, r) matches Some((cs, e))
    &&& e == p.2[r + 1]
    &&& strictly_increasing(cs)
}

/// The parts describe a model: rows start at entry 0 and byte 0, every row
/// is valid and every entry has a value.
pub open spec fn lm_valid(p: LmParts) -> bool {
    &&& p.1[0] == 0
    &&& p.2[0] == 0
    &&& forall|r: int| 0 <= r < p.0 ==> #[trigger] row_valid(p, r)
    &&& p.1[p.0 as int] <= p.4.len()
}

/// The entries of a model, row by row: `(column, quantized value)`.
pub type LmRows = Seq<Seq<(u32, u8)>>;

/// The entries of row `r`.
pub open spec fn row_entries(p: LmParts, r: int) -> Seq<(u32, u8)> {
    Seq::new(
        row_len(p, r) as nat,
        |k: int| (row_cols(p, r)->Some_0.0[k], p.4[p.1[r] + k]),
    )
}

/// The entries of all rows.
pub open spec fn lm_rows(p: LmParts) -> LmRows {
    Seq::new(p.0 as nat, |r: int| row_entries(p, r))
}

/// What a model file holds, or why it cannot be read.
pub open spec fn spec_lm_file(b: Seq<u8>) -> Result<LmRows, StaticLmError> {
    match spec_parse_lm(b) {
        Err(e) => Err(e),
        Ok(p) => if lm_valid(p) {
            Ok(lm_rows(p))
        } else {
            Err(StaticLmError::Corrupt)
        },
    }
}

/// The value of the first entry of `es` in column `col`.
pub open spec fn find_col(es: Seq<(u32, u8)>, col: u32) -> Option<u8>
    decreases es.len(),
{
    if es.len() == 0 {
        None
    } else {
        match find_col(es.drop_last(), col) {
            Some(q) => Some(q),
            None => if es.last().0 == col {
                Some(es.last().1)
            } else {
                None
            },
        }
    }
}

/// The value at `(row, col)`, if the model has an entry there.
pub open spec fn spec_lm_get(rows: LmRows, row: u32, col: u32) -> Option<u8> {
    if row < rows.len() {
        find_col(rows[row as int], col)
    } else {
        None
    }
}

/// The columns of a row's entries.
pub open spec fn entry_cols(es: Seq<(u32, u8)>) -> Seq<u32> {
    Seq::new(es.len(), |k: int| es[k].0)
}

/// In entries with ascending columns, the entry at `k` is the one found
/// for its column, and a column that no entry has gives nothing.
pub proof fn lemma_find_col(es: Seq<(u32, u8)>, col: u32)
    requires
        strictly_increasing(entry_cols(es)),
    ensures
        forall|k: int| 0 <= k < es.len() && #[trigger] es[k].0 == col ==> find_col(es, col) == Some(es[k].1),
        (forall|k: int| 0 <= k < es.len() ==> #[trigger] es[k].0 != col) ==> find_col(es, col) is None,
    decreases es.len(),
{
    if es.len() > 0 {
        let init = es.drop_last();
        assert(strictly_increasing(entry_cols(init))) by {
            assert forall|i: int, j: int| 0 <= i < j < entry_cols(init).len() implies entry_cols(init)[i]
                < entry_cols(init)[j] by {
                assert(entry_cols(es)[i] < entry_cols(es)[j]);
            }
        }
        lemma_find_col(init, col);
        assert forall|k: int| 0 <= k < es.len() && #[trigger] es[k].0 == col implies find_col(es, col)
            == Some(es[k].1) by {
            if k < es.len() - 1 {
                assert(init[k] == es[k]);
            } else {
                assert forall|j: int| 0 <= j < init.len() implies #[trigger] init[j].0 != col by {
                    assert(entry_cols(es)[j] < entry_cols(es)[k]);
                }
            }
        }
        if forall|k: int| 0 <= k < es.len() ==> #[trigger] es[k].0 != col {
            assert forall|j: int| 0 <= j < init.len() implies #[trigger] init[j].0 != col by {
                assert(init[j] == es[j]);
            }
            assert(es[es.len() - 1].0 != col);
        }
    }
}

/// Reads a `uint` at the decoder's position, as `p_uint` describes it.
pub(crate) fn read_uint_at(decoder: &mut BareDecoder, Ghost(b): Ghost<Seq<u8>>) -> (r: Result<u64, BareError>)
    requires
        old(decoder).wf(),
        old(decoder).spec_bytes() == b,
    ensures
        final(decoder).wf(),
        final(decoder).spec_bytes() == b,
        match p_uint(b, old(decoder).spec_pos() as int) {
            Ok((v, p)) => r == Ok::<u64, BareError>(v) && final(decoder).spec_pos() == p,
            Err(e) => r == Err::<u64, BareError>(e),
        },
{
    proof {
        assert(decoder.spec_rest() =~= b.subrange(decoder.spec_pos() as int, b.len() as int));
    }
    decoder.read_uint()
}

/// Reads a `u32` at the decoder's position, as `p_u32` describes it.
pub(crate) fn read_u32_at(decoder: &mut BareDecoder, Ghost(b): Ghost<Seq<u8>>) -> (r: Result<u32, BareError>)
    requires
        old(decoder).wf(),
        old(decoder).spec_bytes() == b,
    ensures
        final(decoder).wf(),
        final(decoder).spec_bytes() == b,
        match p_u32(b, old(decoder).spec_pos() as int) {
            Ok((v, p)) => r == Ok::<u32, BareError>(v) && final(decoder).spec_pos() == p,
            Err(e) => r == Err::<u32, BareError>(e),
        },
{
    let ghost pos = decoder.spec_pos() as int;
    proof {
        assert(decoder.spec_rest() =~= b.subrange(pos, b.len() as int));
        if pos + 4 <= b.len() {
            assert(b.subrange(pos, b.len() as int).take(4) =~= b.subrange(pos, pos + 4));
        }
    }
    decoder.read_u32()
}

/// Reads a `u64` at the decoder's position, as `p_u64` describes it.
pub(crate) fn read_u64_at(decoder: &mut BareDecoder, Ghost(b): Ghost<Seq<u8>>) -> (r: Result<u64, BareError>)
    requires
        old(decoder).wf(),
        old(decoder).spec_bytes() == b,
    ensures
        final(decoder).wf(),
        final(decoder).spec_bytes() == b,
        match p_u64(b, old(decoder).spec_pos() as int) {
            Ok((v, p)) => r == Ok::<u64, BareError>(v) && final(decoder).spec_pos() == p,
            Err(e) => r == Err::<u64, BareError>(e),
        },
{
    let ghost pos = decoder.spec_pos() as int;
    proof {
        assert(decoder.spec_rest() =~= b.subrange(pos, b.len() as int));
        if pos + 8 <= b.len() {
            assert(b.subrange(pos, b.len() as int).take(8) =~= b.subrange(pos, pos + 8));
        }
    }
    decoder.read_u64()
}

/// Reads `count` `u32` values at the decoder's position, as `p_u32_list`
/// describes them.
fn read_u32_list_at(decoder: &mut BareDecoder, count: usize, Ghost(b): Ghost<Seq<u8>>) -> (r: Result<
    Vec<u32>,
    BareError,
>)
    requires
        old(decoder).wf(),
        old(decoder).spec_bytes() == b,
    ensures
        final(decoder).wf(),
        final(decoder).spec_bytes() == b,
        match p_u32_list(b, old(decoder).spec_pos() as int, count as nat) {
            Ok((v, p)) => r matches Ok(w) && w@ == v && final(decoder).spec_pos() == p,
            Err(e) => r == Err::<Vec<u32>, BareError>(e),
        },
{
    let ghost pos = decoder.spec_pos() as int;
    let ghost rest = b.subrange(pos, b.len() as int);
    proof {
        assert(decoder.spec_rest() =~= rest);
    }
    let r = decoder.read_list_u32_exact(count);
    proof {
        if pos + 4 * count <= b.len() {
            let v = p_u32_list(b, pos, count as nat)->Ok_0.0;
            let w = r->Ok_0@;
            assert forall|k: int| 0 <= k < count implies w[k] == v[k] by {
                assert(rest.subrange(4 * k, 4 * k + 4) =~= b.subrange(pos + 4 * k, pos + 4 * k + 4));
            }
            assert(w =~= v);
        }
    }
    r
}

/// Reads `len` raw bytes at the decoder's position, as `p_raw` describes them.
fn read_raw_at(decoder: &mut BareDecoder, len: u64, Ghost(b): Ghost<Seq<u8>>) -> (r: Result<
    Vec<u8>,
    BareError,
>)
    requires
        old(decoder).wf(),
        old(decoder).spec_bytes() == b,
    ensures
        final(decoder).wf(),
        final(decoder).spec_bytes() == b,
        match p_raw(b, old(decoder).spec_pos() as int, len as nat) {
            Ok((v, p)) => r matches Ok(w) && w@ == v && final(decoder).spec_pos() == p,
            Err(e) => r == Err::<Vec<u8>, BareError>(e),
        },
{
    let ghost pos = decoder.spec_pos() as int;
    proof {
        assert(decoder.spec_rest() =~= b.subrange(pos, b.len() as int));
    }
    if len > decoder.remaining() as u64 {
        return Err(BareError::UnexpectedEof);
    }
    let r = decoder.read_data_exact(len as usize);
    proof {
        assert(b.subrange(pos, b.len() as int).take(len as int) =~= b.subrange(pos, pos + len));
    }
    r
}

/// Reads the parts of a model file.
fn parse_lm(bytes: &[u8]) -> (r: Result<(u32, Vec<u32>, Vec<u32>, Vec<u8>, Vec<u8>), StaticLmError>)
    ensures
        match spec_parse_lm(bytes@) {
            Ok(p) => r matches Ok((rows, ri, ro, cd, vals)) && rows == p.0 && ri@ == p.1 && ro@ == p.2
                && cd@ == p.3 && vals@ == p.4,
            Err(e) => r matches Err(f) && f == e,
        },
{
    let ghost b = bytes@;
    let mut decoder = BareDecoder::new(bytes);
    let magic = match decoder.read_data_exact(4) {
        Ok(m) => m,
        Err(e) => {
            return Err(StaticLmError::Bare(e));
        },
    };
    if !(magic[0] == 0x43 && magic[1] == 0x48 && magic[2] == 0x4c && magic[3] == 0x4d) {
        proof {
            assert(b.take(4) != spec_lm_magic()) by {
                if b.take(4) == spec_lm_magic() {
                    assert(magic@ == b.take(4));
                }
            }
        }
        return Err(StaticLmError::UnknownFormat);
    }
    proof {
        assert(b.take(4) =~= spec_lm_magic());
    }
    let version = match read_uint_at(&mut decoder, Ghost(b)) {
        Ok(v) => v,
        Err(e) => {
            return Err(StaticLmError::Bare(e));
        },
    };
    if version != 0 {
        return Err(StaticLmError::UnknownVersion);
    }
    let _flags = match read_u32_at(&mut decoder, Ghost(b)) {
        Ok(v) => v,
        Err(e) => {
            return Err(StaticLmError::Bare(e));
        },
    };
    let rows = match read_u32_at(&mut decoder, Ghost(b)) {
        Ok(v) => v,
        Err(e) => {
            return Err(StaticLmError::Bare(e));
        },
    };
    let num_values = match read_u64_at(&mut decoder, Ghost(b)) {
        Ok(v) => v,
        Err(e) => {
            return Err(StaticLmError::Bare(e));
        },
    };
    let num_deltas = match read_u64_at(&mut decoder, Ghost(b)) {
        Ok(v) => v,
        Err(e) => {
            return Err(StaticLmError::Bare(e));
        },
    };
    if rows == u32::MAX {
        return Err(StaticLmError::Corrupt);
    }
    let count = rows as usize + 1;
    let row_index = match read_u32_list_at(&mut decoder, count, Ghost(b)) {
        Ok(v) => v,
        Err(e) => {
            return Err(StaticLmError::Bare(e));
        },
    };
    let row_offsets = match read_u32_list_at(&mut decoder, count, Ghost(b)) {
        Ok(v) => v,
        Err(e) => {
            return Err(StaticLmError::Bare(e));
        },
    };
    let col_deltas = match read_raw_at(&mut decoder, num_deltas, Ghost(b)) {
        Ok(v) => v,
        Err(e) => {
            return Err(StaticLmError::Bare(e));
        },
    };
    let values = match read_raw_at(&mut decoder, num_values, Ghost(b)) {
        Ok(v) => v,
        Err(e) => {
            return Err(StaticLmError::Bare(e));
        },
    };
    Ok((rows, row_index, row_offsets, col_deltas, values))
}

/// `cs` in front of the columns of a decoding, if it succeeded.
pub open spec fn prepend(cs: Seq<u32>, o: Option<(Seq<u32>, int)>) -> Option<(Seq<u32>, int)> {
    match o {
        None => None,
        Some((t, e)) => Some((cs + t, e)),
    }
}

/// A varint is at least one byte long.
proof fn lemma_varint_len(d: Seq<u8>, off: int)
    ensures
        spec_decode_varint(d, off) matches Some((_, n)) ==> n >= 1 && off + n <= d.len(),
{
    if 0 <= off <= d.len() {
        let rest = d.subrange(off, d.len() as int);
        lemma_scan_len_at_least(rest, 0, 0);
        lemma_scan_within(rest, 0, 0);
    }
}

proof fn lemma_scan_within(rest: Seq<u8>, i: nat, acc: int)
    ensures
        uint_scan(rest, i, acc) matches Ok((_, n)) ==> n <= rest.len(),
    decreases 10 - i,
{
    if i < 10 && i < rest.len() && !(i == 9 && rest[i as int] > 1) && rest[i as int] >= 0x80 {
        lemma_scan_within(rest, i + 1, acc + (rest[i as int] % 128) * pow128(i));
    }
}

/// Decoding `count` columns gives `count` columns and does not go back.
proof fn lemma_dec_cols_shape(d: Seq<u8>, off: int, count: nat, prev: u32)
    ensures
        dec_cols(d, off, count, prev) matches Some((cs, e)) ==> cs.len() == count && off <= e && (
        count > 0 ==> off < e && 0 <= off && e <= d.len()),
    decreases count,
{
    if count > 0 {
        lemma_varint_len(d, off);
        if let Some((v, n)) = spec_decode_varint(d, off) {
            let c = ((prev + v) % 0x1_0000_0000) as u32;
            lemma_dec_cols_shape(d, off + n, (count - 1) as nat, c);
        }
    }
}

/// Decodes the `count` columns of a row from `off`: the columns and the
/// offset after them, or `None` when they do not decode or do not ascend.
fn decode_row(cd: &[u8], off: usize, count: u32) -> (r: Option<(Vec<u32>, usize)>)
    requires
        off <= cd@.len(),
    ensures
        r matches Some((v, e)) ==> dec_cols(cd@, off as int, count as nat, 0) == Some((v@, e as int))
            && strictly_increasing(v@),
        r is None ==> !(dec_cols(cd@, off as int, count as nat, 0) matches Some((cs, _))
            && strictly_increasing(cs)),
{
    let mut cols: Vec<u32> = Vec::new();
    let mut pos = off;
    let mut prev: u32 = 0;
    let mut k: u32 = 0;
    let len = cd.len();
    while k < count
        invariant
            len == cd@.len(),
            off <= pos <= cd@.len(),
            k <= count,
            cols@.len() == k,
            strictly_increasing(cols@),
            k > 0 ==> prev == cols@.last(),
            k == 0 ==> prev == 0,
            dec_cols(cd@, off as int, count as nat, 0) == prepend(
                cols@,
                dec_cols(cd@, pos as int, (count - k) as nat, prev),
            ),
        decreases count - k,
    {
        let ghost before = cols@;
        proof {
            lemma_varint_len(cd@, pos as int);
        }
        let (v, n) = match decode_varint(cd, pos) {
            Some(x) => x,
            None => {
                return None;
            },
        };
        proof {
            assert(spec_decode_varint(cd@, pos as int) == Some((v, n as nat)));
            lemma_varint_len(cd@, pos as int);
            assert(pos + n <= cd@.len());
        }
        let c = ((prev as u64 + v as u64) % 0x1_0000_0000) as u32;
        let ghost tail = dec_cols(cd@, pos + n, (count - k - 1) as nat, c);
        if k > 0 && c <= prev {
            proof {
                if let Some((cs, _)) = dec_cols(cd@, off as int, count as nat, 0) {
                    let t = tail->Some_0.0;
                    assert(cs == before + (seq![c] + t));
                    assert(cs[k - 1] == prev);
                    assert(cs[k as int] == c);
                }
            }
            return None;
        }
        cols.push(c);
        proof {
            assert(strictly_increasing(cols@)) by {
                assert forall|i: int, j: int| 0 <= i < j < cols@.len() implies cols@[i] < cols@[j] by {
                    if j == k {
                        if i < k - 1 {
                            assert(before[i] < before[k - 1]);
                        }
                    } else {
                        assert(before[i] < before[j]);
                    }
                }
            }
            match tail {
                Some((t, e)) => {
                    assert(before + (seq![c] + t) =~= cols@ + t);
                },
                None => {},
            }
        }
        pos = pos + n;
        prev = c;
        k = k + 1;
    }
    proof {
        assert(cols@ + Seq::<u32>::empty() =~= cols@);
    }
    Some((cols, pos))
}

/// A scan that succeeds reads the same from a longer input.
proof fn lemma_scan_extend(s: Seq<u8>, x: Seq<u8>, i: nat, acc: int)
    requires
        uint_scan(s, i, acc) is Ok,
    ensures
        uint_scan(s + x, i, acc) == uint_scan(s, i, acc),
    decreases 10 - i,
{
    if i < 10 && i < s.len() {
        assert((s + x)[i as int] == s[i as int]);
        if !(i == 9 && s[i as int] > 1) && s[i as int] >= 0x80 {
            lemma_scan_extend(s, x, i + 1, acc + (s[i as int] % 128) * pow128(i));
        }
    }
}

/// A varint that decodes reads the same from a longer input.
proof fn lemma_varint_extend(d: Seq<u8>, x: Seq<u8>, off: int)
    requires
        spec_decode_varint(d, off) is Some,
    ensures
        spec_decode_varint(d + x, off) == spec_decode_varint(d, off),
{
    let s = d.subrange(off, d.len() as int);
    assert((d + x).subrange(off, (d + x).len() as int) =~= s + x);
    lemma_scan_extend(s, x, 0, 0);
}

/// Columns that decode read the same from a longer input.
proof fn lemma_dec_cols_extend(d: Seq<u8>, x: Seq<u8>, off: int, count: nat, prev: u32)
    requires
        dec_cols(d, off, count, prev) is Some,
    ensures
        dec_cols(d + x, off, count, prev) == dec_cols(d, off, count, prev),
    decreases count,
{
    if count > 0 {
        lemma_varint_extend(d, x, off);
        let (v, n) = spec_decode_varint(d, off)->Some_0;
        let c = ((prev + v) % 0x1_0000_0000) as u32;
        lemma_dec_cols_extend(d, x, off + n, (count - 1) as nat, c);
    }
}

/// A varint of a `u32` is at most five bytes long.
proof fn lemma_encode_len(v: nat, k: nat)
    requires
        v < pow128(k),
        k >= 1,
    ensures
        spec_encode_uint(v).len() <= k,
    decreases v,
{
    if v >= 128 {
        assert(pow128(k) == 128 * pow128((k - 1) as nat));
        assert(v / 128 < pow128((k - 1) as nat));
        if k == 1 {
            assert(pow128(0) == 1);
        } else {
            lemma_encode_len(v / 128, (k - 1) as nat);
        }
    }
}

/// The varint of `v` appended to `d` decodes to `v`.
proof fn lemma_varint_at_end(d: Seq<u8>, v: u32)
    ensures
        spec_decode_varint(d + spec_encode_uint(v as nat), d.len() as int) == Some((
            v,
            spec_encode_uint(v as nat).len(),
        )),
{
    let e = spec_encode_uint(v as nat);
    reveal_with_fuel(pow128, 6);
    lemma_encode_len(v as nat, 5);
    lemma_uint_roundtrip(v as u64, Seq::<u8>::empty());
    assert((d + e).subrange(d.len() as int, (d + e).len() as int) =~= e + Seq::<u8>::empty());
}

/// A varint written after any bytes reads back as the value it was made
/// of, from one to five bytes long, whatever follows it.
pub proof fn lemma_varint_roundtrip(d: Seq<u8>, v: u32, rest: Seq<u8>)
    ensures
        1 <= spec_encode_uint(v as nat).len() <= 5,
        spec_decode_varint(d + spec_encode_uint(v as nat) + rest, d.len() as int) == Some((
            v,
            spec_encode_uint(v as nat).len(),
        )),
{
    let e = spec_encode_uint(v as nat);
    lemma_varint_at_end(d, v);
    lemma_varint_len(d + e, d.len() as int);
    reveal_with_fuel(pow128, 6);
    lemma_encode_len(v as nat, 5);
    lemma_varint_extend(d + e, rest, d.len() as int);
}

/// The last column decoded, or `prev` when there is none.
pub open spec fn last_or(cs: Seq<u32>, prev: u32) -> u32 {
    if cs.len() == 0 {
        prev
    } else {
        cs.last()
    }
}

/// Decoding `k` columns and then `j` more from where they end is decoding
/// `k + j` columns.
proof fn lemma_dec_cols_compose(d: Seq<u8>, off: int, k: nat, prev: u32, j: nat)
    requires
        dec_cols(d, off, k, prev) is Some,
        dec_cols(
            d,
            dec_cols(d, off, k, prev)->Some_0.1,
            j,
            last_or(dec_cols(d, off, k, prev)->Some_0.0, prev),
        ) is Some,
    ensures
        dec_cols(d, off, k + j, prev) == Some(
            (
                dec_cols(d, off, k, prev)->Some_0.0 + dec_cols(
                    d,
                    dec_cols(d, off, k, prev)->Some_0.1,
                    j,
                    last_or(dec_cols(d, off, k, prev)->Some_0.0, prev),
                )->Some_0.0,
                dec_cols(
                    d,
                    dec_cols(d, off, k, prev)->Some_0.1,
                    j,
                    last_or(dec_cols(d, off, k, prev)->Some_0.0, prev),
                )->Some_0.1,
            ),
        ),
    decreases k,
{
    lemma_dec_cols_shape(d, off, k, prev);
    if k == 0 {
        assert(Seq::<u32>::empty() + dec_cols(d, off, j, prev)->Some_0.0 =~= dec_cols(
            d,
            off,
            j,
            prev,
        )->Some_0.0);
    } else {
        let (v, n) = spec_decode_varint(d, off)->Some_0;
        let c = ((prev + v) % 0x1_0000_0000) as u32;
        let (cs, e) = dec_cols(d, off, k, prev)->Some_0;
        let (t, _) = dec_cols(d, off + n, (k - 1) as nat, c)->Some_0;
        lemma_dec_cols_shape(d, off + n, (k - 1) as nat, c);
        assert(cs == seq![c] + t);
        assert(last_or(t, c) == last_or(cs, prev));
        lemma_dec_cols_compose(d, off + n, (k - 1) as nat, c, j);
        assert((k + j - 1) as nat == (k - 1) as nat + j);
        let (u, _) = dec_cols(d, e, j, last_or(cs, prev))->Some_0;
        assert(seq![c] + (t + u) =~= cs + u);
    }
}

/// Appending the varint of the step to the next, larger column extends a
/// row decoded to the end of the input by that column.
proof fn lemma_dec_cols_snoc(d: Seq<u8>, off: int, cs: Seq<u32>, c: u32)
    requires
        dec_cols(d, off, cs.len(), 0) == Some((cs, d.len() as int)),
        c >= last_or(cs, 0),
    ensures
        dec_cols(
            d + spec_encode_uint((c - last_or(cs, 0)) as nat),
            off,
            cs.len() + 1,
            0,
        ) == Some((cs.push(c), (d + spec_encode_uint((c - last_or(cs, 0)) as nat)).len() as int)),
{
    let step = (c - last_or(cs, 0)) as u32;
    let x = spec_encode_uint(step as nat);
    let d2 = d + x;
    lemma_dec_cols_extend(d, x, off, cs.len(), 0);
    lemma_varint_at_end(d, step);
    assert(((last_or(cs, 0) + step) % 0x1_0000_0000) as u32 == c);
    assert(dec_cols(d2, d.len() as int + x.len(), 0, c) == Some((Seq::<u32>::empty(), d2.len() as int)));
    assert(dec_cols(d2, d.len() as int, 1, last_or(cs, 0)) == Some((seq![c], d2.len() as int)));
    lemma_dec_cols_compose(d2, off, cs.len(), 0, 1);
    assert(cs + seq![c] =~= cs.push(c));
}

/// The row table does not decrease over valid rows.
proof fn lemma_row_index_monotone(p: LmParts, a: int, b: int)
    requires
        0 <= a <= b,
        b <= p.0,
        forall|q: int| 0 <= q < b ==> #[trigger] row_valid(p, q),
    ensures
        p.1[a] <= p.1[b],
    decreases b - a,
{
    if a < b {
        assert(row_valid(p, b - 1));
        lemma_row_index_monotone(p, a, b - 1);
    }
}

/// The storage of the column index.
enum ColStorage {
    /// All columns, row after row.
    Decoded(Vec<u32>),
    /// The byte offset of each row and the varints.
    Varint { row_byte_offsets: Vec<u32>, col_deltas: Vec<u8> },
}

/// A read-only bigram language model.
pub struct StaticLm {
    /// Cumulative entry counts: the entries of row `r` are
    /// `row_index[r]..row_index[r + 1]`.
    row_index: Vec<u32>,
    /// Quantized log-probabilities, one per entry.
    values: Vec<u8>,
    /// The columns of the entries.
    cols: ColStorage,
    /// The entries, row by row.
    rows: Ghost<LmRows>,
}

impl StaticLm {
    /// The entries of the model, row by row.
    pub closed spec fn spec_rows(&self) -> LmRows {
        self.rows@
    }

    /// How the column index is kept.
    pub closed spec fn spec_mode(&self) -> LoadMode {
        match self.cols {
            ColStorage::Decoded(_) => LoadMode::Eager,
            ColStorage::Varint { .. } => LoadMode::Lazy,
        }
    }

    /// The tables describe the entries.
    pub closed spec fn wf(&self) -> bool {
        let ri = self.row_index@;
        let m = self.rows@;
        &&& (ri.len() == 0 && m.len() == 0) || (ri.len() == m.len() + 1 && ri[0] == 0 && ri.last()
            <= self.values@.len())
        &&& forall|r: int| 0 <= r < m.len() ==> #[trigger] m[r].len() + ri[r] == ri[r + 1]
        &&& forall|r: int| 0 <= r < m.len() ==> strictly_increasing(entry_cols(#[trigger] m[r]))
        &&& forall|r: int, k: int|
            0 <= r < m.len() && 0 <= k < m[r].len() ==> self.values@[ri[r] + k] == (#[trigger] m[r][k]).1
        &&& match self.cols {
            ColStorage::Decoded(flat) => (ri.len() > 0 ==> ri.last() <= flat@.len()) && forall|
                r: int,
                k: int,
            | 0 <= r < m.len() && 0 <= k < m[r].len() ==> flat@[ri[r] + k] == (#[trigger] m[r][k]).0,
            ColStorage::Varint { row_byte_offsets, col_deltas } => row_byte_offsets@.len() == ri.len()
                && forall|r: int|
                0 <= r < m.len() ==> dec_cols(
                    col_deltas@,
                    row_byte_offsets@[r] as int,
                    #[trigger] m[r].len(),
                    0,
                ) == Some((entry_cols(m[r]), row_byte_offsets@[r + 1] as int)),
        }
    }

    /// An empty model.
    pub fn new() -> (lm: StaticLm)
        ensures
            lm.wf(),
            lm.spec_rows() == Seq::<Seq<(u32, u8)>>::empty(),
            lm.spec_mode() == LoadMode::Eager,
    {
        StaticLm {
            row_index: Vec::new(),
            values: Vec::new(),
            cols: ColStorage::Decoded(Vec::new()),
            rows: Ghost(Seq::empty()),
        }
    }

    /// Reads a model file, decoding its column index at once or keeping it
    /// for lookups, as `mode` says.
    pub fn from_bytes(bytes: &[u8], mode: LoadMode) -> (r: Result<StaticLm, StaticLmError>)
        ensures
            match spec_lm_file(bytes@) {
                Ok(rows) => r matches Ok(lm) && lm.wf() && lm.spec_rows() == rows && lm.spec_mode()
                    == mode,
                Err(e) => r matches Err(f) && f == e,
            },
    {
        let (rows, row_index, row_offsets, col_deltas, values) = match parse_lm(bytes) {
            Ok(p) => p,
            Err(e) => {
                return Err(e);
            },
        };
        let ghost p: LmParts = (rows, row_index@, row_offsets@, col_deltas@, values@);
        proof {
            assert(spec_parse_lm(bytes@) == Ok::<LmParts, StaticLmError>(p));
        }
        if row_index[0] != 0 || row_offsets[0] != 0 {
            return Err(StaticLmError::Corrupt);
        }
        let eager = match mode {
            LoadMode::Eager => true,
            LoadMode::Lazy => false,
        };
        let mut flat: Vec<u32> = Vec::new();
        let ghost mut model: LmRows = Seq::empty();
        let n = rows as usize;
        let mut r: usize = 0;
        while r < n
            invariant
                spec_parse_lm(bytes@) == Ok::<LmParts, StaticLmError>(p),
                n == p.0,
                row_index@ == p.1,
                row_offsets@ == p.2,
                col_deltas@ == p.3,
                values@ == p.4,
                row_index@.len() == n + 1,
                row_offsets@.len() == n + 1,
                p.1[0] == 0,
                p.2[0] == 0,
                r <= n,
                model.len() == r,
                row_offsets@[r as int] <= col_deltas@.len(),
                forall|q: int| 0 <= q < r ==> #[trigger] row_valid(p, q),
                forall|q: int| 0 <= q < r ==> #[trigger] model[q] == row_entries(p, q),
                eager ==> flat@.len() == row_index@[r as int],
                eager ==> forall|q: int, k: int|
                    0 <= q < r && 0 <= k < row_len(p, q) ==> flat@[row_index@[q] + k] == (
                    #[trigger] row_cols(p, q)->Some_0.0[k]),
            decreases n - r,
        {
            let s = row_index[r];
            let e = row_index[r + 1];
            if s > e {
                proof {
                    assert(!row_valid(p, r as int));
                    assert(!lm_valid(p));
                }
                return Err(StaticLmError::Corrupt);
            }
            let (cols, end) = match decode_row(col_deltas.as_slice(), row_offsets[r] as usize, e - s) {
                Some(x) => x,
                None => {
                    proof {
                        assert(!row_valid(p, r as int));
                        assert(!lm_valid(p));
                    }
                    return Err(StaticLmError::Corrupt);
                },
            };
            if end != row_offsets[r + 1] as usize {
                proof {
                    assert(!row_valid(p, r as int));
                    assert(!lm_valid(p));
                }
                return Err(StaticLmError::Corrupt);
            }
            proof {
                assert(row_valid(p, r as int));
                lemma_dec_cols_shape(p.3, p.2[r as int] as int, (e - s) as nat, 0);
            }
            if eager {
                let ghost before = flat@;
                let mut k: usize = 0;
                while k < cols.len()
                    invariant
                        k <= cols@.len(),
                        flat@.len() == before.len() + k,
                        forall|j: int| 0 <= j < before.len() ==> flat@[j] == before[j],
                        forall|j: int| 0 <= j < k ==> flat@[before.len() + j] == cols@[j],
                    decreases cols.len() - k,
                {
                    flat.push(cols[k]);
                    k = k + 1;
                }
                proof {
                    assert forall|q: int, k: int|
                        0 <= q < r + 1 && 0 <= k < row_len(p, q) implies flat@[row_index@[q] + k] == (
                    #[trigger] row_cols(p, q)->Some_0.0[k]) by {
                        if q < r {
                            assert(row_valid(p, q));
                            assert(p.1[q] + k < p.1[q + 1]);
                            assert(p.1[q + 1] <= p.1[r as int]) by {
                                lemma_row_index_monotone(p, q + 1, r as int);
                            }
                        }
                    }
                }
            }
            proof {
                model = model.push(row_entries(p, r as int));
            }
            r = r + 1;
        }
        if row_index[n] as usize > values.len() {
            return Err(StaticLmError::Corrupt);
        }
        proof {
            assert(lm_valid(p));
            assert(model =~= lm_rows(p));
        }
        let cols = if eager {
            ColStorage::Decoded(flat)
        } else {
            ColStorage::Varint { row_byte_offsets: row_offsets, col_deltas }
        };
        let lm = StaticLm { row_index, values, cols, rows: Ghost(model) };
        proof {
            assert(spec_lm_file(bytes@) == Ok::<LmRows, StaticLmError>(model));
            assert forall|q: int| 0 <= q < model.len() implies entry_cols(#[trigger] model[q]) =~= row_cols(
                p,
                q,
            )->Some_0.0 by {
                assert(row_valid(p, q));
                lemma_dec_cols_shape(p.3, p.2[q] as int, row_len(p, q) as nat, 0);
            }
            let ri = row_index@;
            assert forall|q: int| 0 <= q < model.len() implies #[trigger] model[q].len() + ri[q] == ri[q
                + 1] && strictly_increasing(entry_cols(model[q])) by {
                assert(row_valid(p, q));
            }
            assert forall|q: int, k: int|
                0 <= q < model.len() && 0 <= k < model[q].len() implies values@[ri[q] + k] == (
            #[trigger] model[q][k]).1 by {}
            if eager {
                assert(ri.len() > 0 ==> ri.last() <= flat@.len());
                assert forall|q: int, k: int|
                    0 <= q < model.len() && 0 <= k < model[q].len() implies flat@[ri[q] + k] == (
                #[trigger] model[q][k]).0 by {
                    assert(row_cols(p, q)->Some_0.0[k] == model[q][k].0);
                }
            } else {
                assert forall|q: int| 0 <= q < model.len() implies dec_cols(
                    p.3,
                    p.2[q] as int,
                    #[trigger] model[q].len(),
                    0,
                ) == Some((entry_cols(model[q]), p.2[q + 1] as int)) by {
                    assert(row_valid(p, q));
                    lemma_dec_cols_shape(p.3, p.2[q] as int, row_len(p, q) as nat, 0);
                }
            }
            assert(lm.wf());
        }
        Ok(lm)
    }

    /// The quantized log-probability at `(row, col)`, if the model has an
    /// entry there.
    pub fn get_quantized(&self, row: u32, col: u32) -> (r: Option<u8>)
        requires
            self.wf(),
        ensures
            r == spec_lm_get(self.spec_rows(), row, col),
    {
        let len = self.row_index.len();
        if len == 0 || row as usize >= len - 1 {
            return None;
        }
        proof {
            let m = self.rows@;
            assert(m[row as int].len() + self.row_index@[row as int] == self.row_index@[row + 1]);
            lemma_find_col(m[row as int], col);
        }
        match &self.cols {
            ColStorage::Decoded(flat) => self.get_eager(row, col, flat),
            ColStorage::Varint { row_byte_offsets, col_deltas } => self.get_lazy(
                row,
                col,
                row_byte_offsets,
                col_deltas,
            ),
        }
    }

    /// Binary search among the decoded columns of the row.
    fn get_eager(&self, row: u32, col: u32, flat: &Vec<u32>) -> (r: Option<u8>)
        requires
            self.wf(),
            self.cols == ColStorage::Decoded(*flat),
            row + 1 < self.row_index@.len(),
        ensures
            r == spec_lm_get(self.spec_rows(), row, col),
    {
        let ghost m = self.rows@;
        let ghost es = m[row as int];
        let ghost ri = self.row_index@;
        let len = self.row_index.len();
        let start = self.row_index[row as usize] as usize;
        let end = self.row_index[row as usize + 1] as usize;
        proof {
            assert(es.len() + ri[row as int] == ri[row + 1]);
            lemma_ri_bounded(self, row as int + 1);
        }
        let mut lo = start;
        let mut hi = end;
        while lo < hi
            invariant
                es == self.spec_rows()[row as int],
                row < self.spec_rows().len(),
                start <= lo <= hi <= end,
                end <= flat@.len(),
                end <= self.values@.len(),
                start == ri[row as int],
                end == start + es.len(),
                strictly_increasing(entry_cols(es)),
                forall|k: int| 0 <= k < es.len() ==> flat@[start + k] == #[trigger] es[k].0,
                forall|k: int| 0 <= k < es.len() ==> self.values@[start + k] == #[trigger] es[k].1,
                forall|k: int| 0 <= k < lo - start ==> #[trigger] es[k].0 < col,
                forall|k: int| hi - start <= k < es.len() ==> #[trigger] es[k].0 > col,
            decreases hi - lo,
        {
            let mid = lo + (hi - lo) / 2;
            let c = flat[mid];
            proof {
                assert(c == es[mid - start].0);
            }
            if c == col {
                proof {
                    lemma_find_col(es, col);
                }
                return Some(self.values[mid]);
            } else if c < col {
                proof {
                    assert forall|k: int| 0 <= k < mid + 1 - start implies #[trigger] es[k].0 < col by {
                        if k < mid - start {
                            assert(entry_cols(es)[k] < entry_cols(es)[mid - start]);
                        }
                    }
                }
                lo = mid + 1;
            } else {
                proof {
                    assert forall|k: int| mid - start <= k < es.len() implies #[trigger] es[k].0 > col by {
                        if k > mid - start {
                            assert(entry_cols(es)[mid - start] < entry_cols(es)[k]);
                        }
                    }
                }
                hi = mid;
            }
        }
        proof {
            lemma_find_col(es, col);
        }
        None
    }

    /// Decodes the columns of the row one by one, stopping at the first one
    /// not below `col`.
    fn get_lazy(&self, row: u32, col: u32, row_byte_offsets: &Vec<u32>, col_deltas: &Vec<u8>) -> (r:
        Option<u8>)
        requires
            self.wf(),
            self.cols == (ColStorage::Varint {
                row_byte_offsets: *row_byte_offsets,
                col_deltas: *col_deltas,
            }),
            row + 1 < self.row_index@.len(),
        ensures
            r == spec_lm_get(self.spec_rows(), row, col),
    {
        let ghost m = self.rows@;
        let ghost es = m[row as int];
        let ghost ri = self.row_index@;
        let len = self.row_index.len();
        let dlen = col_deltas.len();
        let entry_start = self.row_index[row as usize] as usize;
        let entry_end = self.row_index[row as usize + 1] as usize;
        proof {
            assert(es.len() + ri[row as int] == ri[row + 1]);
            lemma_find_col(es, col);
            lemma_ri_bounded(self, row as int + 1);
        }
        if entry_start == entry_end {
            return None;
        }
        let byte_start = row_byte_offsets[row as usize] as usize;
        let byte_end = row_byte_offsets[row as usize + 1] as usize;
        let ghost cols = entry_cols(es);
        proof {
            assert(dec_cols(col_deltas@, byte_start as int, es.len(), 0) == Some((cols, byte_end as int)));
        }
        let mut offset = byte_start;
        let mut abs_col: u32 = 0;
        let mut entry_idx = entry_start;
        while offset < byte_end && entry_idx < entry_end
            invariant
                es == self.spec_rows()[row as int],
                row < self.spec_rows().len(),
                dlen == col_deltas@.len(),
                entry_start <= entry_idx <= entry_end,
                entry_end == entry_start + es.len(),
                entry_end <= self.values@.len(),
                forall|k: int| 0 <= k < es.len() ==> self.values@[entry_start + k] == #[trigger] es[k].1,
                cols == entry_cols(es),
                strictly_increasing(cols),
                dec_cols(col_deltas@, offset as int, (entry_end - entry_idx) as nat, abs_col) == Some(
                    (cols.subrange(entry_idx - entry_start, es.len() as int), byte_end as int),
                ),
                forall|k: int| 0 <= k < entry_idx - entry_start ==> #[trigger] es[k].0 < col,
            decreases entry_end - entry_idx,
        {
            let ghost k = entry_idx - entry_start;
            let ghost old_off = offset as int;
            let ghost old_abs = abs_col;
            proof {
                lemma_dec_cols_shape(col_deltas@, offset as int, (entry_end - entry_idx) as nat, abs_col);
                lemma_varint_len(col_deltas@, offset as int);
            }
            let (delta, consumed) = match decode_varint(col_deltas.as_slice(), offset) {
                Some(x) => x,
                None => {
                    return None;
                },
            };
            proof {
                assert(spec_decode_varint(col_deltas@, offset as int) == Some((delta, consumed as nat)));
                assert(offset + consumed <= col_deltas@.len());
            }
            abs_col = ((abs_col as u64 + delta as u64) % 0x1_0000_0000) as u32;
            offset = offset + consumed;
            proof {
                let rest = dec_cols(col_deltas@, offset as int, (entry_end - entry_idx - 1) as nat, abs_col);
                assert(dec_cols(col_deltas@, old_off, (entry_end - entry_idx) as nat, old_abs) == prepend(
                    seq![abs_col],
                    rest,
                ));
                assert(rest is Some);
                let t = rest->Some_0.0;
                let sub = cols.subrange(k, es.len() as int);
                assert(seq![abs_col] + t == sub);
                assert((seq![abs_col] + t)[0] == abs_col);
                assert(sub[0] == cols[k]);
                assert(abs_col == cols[k]);
                assert forall|j: int| 0 <= j < t.len() implies t[j] == cols.subrange(k + 1, es.len() as int)[j] by {
                    assert((seq![abs_col] + t)[j + 1] == t[j]);
                    assert(sub[j + 1] == cols[k + 1 + j]);
                }
                assert(t =~= cols.subrange(k + 1, es.len() as int));
            }
            if abs_col == col {
                proof {
                    lemma_find_col(es, col);
                }
                return Some(self.values[entry_idx]);
            }
            if abs_col > col {
                proof {
                    lemma_find_col(es, col);
                    assert forall|j: int| 0 <= j < es.len() implies #[trigger] es[j].0 != col by {
                        if j > k {
                            assert(cols[k] < cols[j]);
                        }
                    }
                }
                return None;
            }
            entry_idx = entry_idx + 1;
        }
        proof {
            if entry_idx < entry_end {
                lemma_dec_cols_shape(col_deltas@, offset as int, (entry_end - entry_idx) as nat, abs_col);
            }
            lemma_find_col(es, col);
        }
        None
    }
}

/// The row table bounds the decoded columns and the values.
proof fn lemma_ri_bounded(lm: &StaticLm, r: int)
    requires
        lm.wf(),
        0 <= r < lm.row_index@.len(),
    ensures
        lm.row_index@[r] <= lm.row_index@.last(),
        lm.row_index@.last() <= lm.values@.len(),
        lm.cols matches ColStorage::Decoded(flat) ==> lm.row_index@.last() <= flat@.len(),
    decreases lm.row_index@.len() - r,
{
    let ri = lm.row_index@;
    if r < ri.len() - 1 {
        assert(lm.rows@[r].len() + ri[r] == ri[r + 1]);
        lemma_ri_bounded(lm, r + 1);
    }
}

} // verus!

verus! {

/// `a` comes before `b`: by row, then by column.
pub open spec fn key_before(a: (u32, u32, u8), b: (u32, u32, u8)) -> bool {
    a.0 < b.0 || (a.0 == b.0 && a.1 < b.1)
}

/// The entries are in strictly ascending `(row, column)` order.
pub open spec fn entries_sorted(es: Seq<(u32, u32, u8)>) -> bool {
    forall|i: int, j: int| 0 <= i < j < es.len() ==> key_before(es[i], es[j])
}

/// The value of the first entry at `(row, col)`.
pub open spec fn entry_value(es: Seq<(u32, u32, u8)>, row: u32, col: u32) -> Option<u8>
    decreases es.len(),
{
    if es.len() == 0 {
        None
    } else {
        match entry_value(es.drop_last(), row, col) {
            Some(q) => Some(q),
            None => if es.last().0 == row && es.last().1 == col {
                Some(es.last().2)
            } else {
                None
            },
        }
    }
}

/// The entries of row `r` with a value other than 0, as `(column, value)`.
pub open spec fn row_of(es: Seq<(u32, u32, u8)>, r: u32) -> Seq<(u32, u8)>
    decreases es.len(),
{
    if es.len() == 0 {
        Seq::empty()
    } else if es.last().0 == r && es.last().2 != 0 {
        row_of(es.drop_last(), r).push((es.last().1, es.last().2))
    } else {
        row_of(es.drop_last(), r)
    }
}

/// The model that a compiler with these entries and `rows` rows writes.
pub open spec fn compiled_rows(es: Seq<(u32, u32, u8)>, rows: u32) -> LmRows {
    Seq::new(rows as nat, |r: int| row_of(es, r as u32))
}

proof fn lemma_sorted_init(es: Seq<(u32, u32, u8)>)
    requires
        entries_sorted(es),
        es.len() > 0,
    ensures
        entries_sorted(es.drop_last()),
{
    assert forall|i: int, j: int| 0 <= i < j < es.drop_last().len() implies key_before(
        es.drop_last()[i],
        es.drop_last()[j],
    ) by {
        assert(key_before(es[i], es[j]));
    }
}

/// In sorted entries, the entry at `k` is the one found for its key, and a
/// key that no entry has gives nothing.
proof fn lemma_entry_value(es: Seq<(u32, u32, u8)>, row: u32, col: u32)
    requires
        entries_sorted(es),
    ensures
        forall|k: int|
            0 <= k < es.len() && #[trigger] es[k].0 == row && es[k].1 == col ==> entry_value(es, row, col)
                == Some(es[k].2),
        (forall|k: int| 0 <= k < es.len() ==> !(#[trigger] es[k].0 == row && es[k].1 == col)) ==> entry_value(
            es,
            row,
            col,
        ) is None,
    decreases es.len(),
{
    if es.len() > 0 {
        let init = es.drop_last();
        lemma_sorted_init(es);
        lemma_entry_value(init, row, col);
        assert forall|k: int|
            0 <= k < es.len() && #[trigger] es[k].0 == row && es[k].1 == col implies entry_value(es, row, col)
                == Some(es[k].2) by {
            if k < es.len() - 1 {
                assert(init[k] == es[k]);
            } else {
                assert forall|j: int| 0 <= j < init.len() implies !(#[trigger] init[j].0 == row && init[j].1
                    == col) by {
                    assert(key_before(es[j], es[k]));
                }
            }
        }
        if forall|k: int| 0 <= k < es.len() ==> !(#[trigger] es[k].0 == row && es[k].1 == col) {
            assert forall|j: int| 0 <= j < init.len() implies !(#[trigger] init[j].0 == row && init[j].1
                == col) by {
                assert(init[j] == es[j]);
            }
            assert(!(es[es.len() - 1].0 == row && es[es.len() - 1].1 == col));
        }
    }
}

/// No entry of `s` is in row `r`: the row is empty.
proof fn lemma_row_of_none(s: Seq<(u32, u32, u8)>, r: u32)
    requires
        forall|k: int| 0 <= k < s.len() ==> #[trigger] s[k].0 != r,
    ensures
        row_of(s, r) == Seq::<(u32, u8)>::empty(),
    decreases s.len(),
{
    if s.len() > 0 {
        assert forall|k: int| 0 <= k < s.drop_last().len() implies #[trigger] s.drop_last()[k].0 != r by {
            assert(s.drop_last()[k] == s[k]);
        }
        lemma_row_of_none(s.drop_last(), r);
    }
}

/// Entries after `i` that are not in row `r` add nothing to it.
proof fn lemma_row_of_prefix(es: Seq<(u32, u32, u8)>, i: int, r: u32)
    requires
        0 <= i <= es.len(),
        forall|k: int| i <= k < es.len() ==> #[trigger] es[k].0 != r,
    ensures
        row_of(es, r) == row_of(es.take(i), r),
    decreases es.len() - i,
{
    if i == es.len() {
        assert(es.take(i) =~= es);
    } else {
        let init = es.drop_last();
        assert forall|k: int| i <= k < init.len() implies #[trigger] init[k].0 != r by {
            assert(init[k] == es[k]);
        }
        lemma_row_of_prefix(init, i, r);
        assert(init.take(i) =~= es.take(i));
    }
}

/// What a lookup in the written model gives: the value inserted at the
/// pair, unless it is 0.
proof fn lemma_row_of_find(es: Seq<(u32, u32, u8)>, r: u32, c: u32)
    requires
        entries_sorted(es),
    ensures
        find_col(row_of(es, r), c) == match entry_value(es, r, c) {
            Some(q) => if q != 0 {
                Some(q)
            } else {
                None
            },
            None => None,
        },
    decreases es.len(),
{
    if es.len() > 0 {
        let init = es.drop_last();
        let last = es.last();
        lemma_sorted_init(es);
        lemma_row_of_find(init, r, c);
        if last.0 == r && last.1 == c {
            lemma_entry_value(init, r, c);
            assert forall|k: int| 0 <= k < init.len() implies !(#[trigger] init[k].0 == r && init[k].1 == c) by {
                assert(key_before(es[k], es[es.len() - 1]));
            }
        }
        if last.0 == r && last.2 != 0 {
            assert(row_of(es, r).drop_last() == row_of(init, r));
        }
    }
}

/// The little endian bytes of each value, one after the other.
pub open spec fn u32s_le(s: Seq<u32>) -> Seq<u8>
    decreases s.len(),
{
    if s.len() == 0 {
        Seq::empty()
    } else {
        u32s_le(s.drop_last()) + spec_u32_to_le_bytes(s.last())
    }
}

proof fn lemma_u32s_le(s: Seq<u32>)
    ensures
        u32s_le(s).len() == 4 * s.len(),
        forall|k: int|
            0 <= k < s.len() ==> #[trigger] u32s_le(s).subrange(4 * k, 4 * k + 4) == spec_u32_to_le_bytes(s[k]),
    decreases s.len(),
{
    lemma_auto_spec_u32_to_from_le_bytes();
    if s.len() > 0 {
        let init = s.drop_last();
        lemma_u32s_le(init);
        let b = u32s_le(s);
        assert forall|k: int| 0 <= k < s.len() implies #[trigger] u32s_le(s).subrange(4 * k, 4 * k + 4)
            == spec_u32_to_le_bytes(s[k]) by {
            if k < s.len() - 1 {
                assert(b.subrange(4 * k, 4 * k + 4) =~= u32s_le(init).subrange(4 * k, 4 * k + 4));
                assert(init[k] == s[k]);
            } else {
                assert(b.subrange(4 * k, 4 * k + 4) =~= spec_u32_to_le_bytes(s.last()));
            }
        }
    }
}

/// The bytes of a model file with these parts.
pub open spec fn spec_lm_bytes(rows: u32, ri: Seq<u32>, ro: Seq<u32>, cd: Seq<u8>, vals: Seq<u8>) -> Seq<
    u8,
> {
    spec_lm_magic() + spec_encode_uint(0) + spec_u32_to_le_bytes(0) + spec_u32_to_le_bytes(rows)
        + spec_u64_to_le_bytes(vals.len() as u64) + spec_u64_to_le_bytes(cd.len() as u64) + u32s_le(ri)
        + u32s_le(ro) + cd + vals
}

/// Reading the bytes of a model file gives back its parts.
proof fn lemma_lm_bytes_roundtrip(rows: u32, ri: Seq<u32>, ro: Seq<u32>, cd: Seq<u8>, vals: Seq<u8>)
    requires
        rows < u32::MAX,
        ri.len() == rows + 1,
        ro.len() == rows + 1,
        cd.len() <= u64::MAX,
        vals.len() <= u64::MAX,
    ensures
        spec_parse_lm(spec_lm_bytes(rows, ri, ro, cd, vals)) == Ok::<LmParts, StaticLmError>(
            (rows, ri, ro, cd, vals),
        ),
{
    lemma_auto_spec_u32_to_from_le_bytes();
    lemma_auto_spec_u64_to_from_le_bytes();
    let b = spec_lm_bytes(rows, ri, ro, cd, vals);
    let e0 = spec_encode_uint(0);
    let z = spec_u32_to_le_bytes(0);
    let nr = spec_u32_to_le_bytes(rows);
    let nv = spec_u64_to_le_bytes(vals.len() as u64);
    let nc = spec_u64_to_le_bytes(cd.len() as u64);
    let bi = u32s_le(ri);
    let bo = u32s_le(ro);
    lemma_u32s_le(ri);
    lemma_u32s_le(ro);
    assert(e0 =~= seq![0u8]);
    let tail = z + nr + nv + nc + bi + bo + cd + vals;
    assert(b =~= spec_lm_magic() + (e0 + tail));
    assert(b.take(4) =~= spec_lm_magic());
    assert(b.subrange(4, b.len() as int) =~= e0 + tail);
    lemma_uint_roundtrip(0, tail);
    assert(p_uint(b, 4) == Ok::<(u64, int), BareError>((0u64, 5int)));
    assert(b.subrange(5, 9) =~= z);
    assert(b.subrange(9, 13) =~= nr);
    assert(p_u32(b, 9) == Ok::<(u32, int), BareError>((rows, 13int)));
    assert(b.subrange(13, 21) =~= nv);
    assert(b.subrange(21, 29) =~= nc);
    let p6: int = 29 + bi.len() as int;
    let p7: int = p6 + bo.len();
    let p8: int = p7 + cd.len();
    assert(b.len() == p8 + vals.len());
    let (ri2, q6) = p_u32_list(b, 29, (rows + 1) as nat)->Ok_0;
    assert(ri2 =~= ri) by {
        assert forall|k: int| 0 <= k < ri.len() implies ri2[k] == ri[k] by {
            assert(b.subrange(29 + 4 * k, 29 + 4 * k + 4) =~= bi.subrange(4 * k, 4 * k + 4));
        }
    }
    let (ro2, q7) = p_u32_list(b, p6, (rows + 1) as nat)->Ok_0;
    assert(ro2 =~= ro) by {
        assert forall|k: int| 0 <= k < ro.len() implies ro2[k] == ro[k] by {
            assert(b.subrange(p6 + 4 * k, p6 + 4 * k + 4) =~= bo.subrange(4 * k, 4 * k + 4));
        }
    }
    assert(b.subrange(p7, p8) =~= cd);
    assert(b.subrange(p8, p8 + vals.len()) =~= vals);
}

/// Row `q` of the entries is laid out in the tables.
pub open spec fn laid_out(
    es: Seq<(u32, u32, u8)>,
    ri: Seq<u32>,
    ro: Seq<u32>,
    cd: Seq<u8>,
    vals: Seq<u8>,
    q: int,
) -> bool {
    let row = row_of(es, q as u32);
    &&& ri[q] + row.len() == ri[q + 1]
    &&& dec_cols(cd, ro[q] as int, row.len(), 0) == Some((entry_cols(row), ro[q + 1] as int))
    &&& strictly_increasing(entry_cols(row))
    &&& forall|k: int| 0 <= k < row.len() ==> vals[ri[q] + k] == #[trigger] row[k].1
}

/// Appends `value`'s little endian bytes for each value.
fn write_u32s(enc: &mut BareEncoder, s: &Vec<u32>)
    ensures
        final(enc).spec_bytes() == old(enc).spec_bytes() + u32s_le(s@),
{
    let mut k: usize = 0;
    while k < s.len()
        invariant
            k <= s@.len(),
            enc.spec_bytes() == old(enc).spec_bytes() + u32s_le(s@.take(k as int)),
        decreases s.len() - k,
    {
        let ghost before = enc.spec_bytes();
        enc.write_u32(s[k]);
        proof {
            assert(s@.take(k + 1).drop_last() =~= s@.take(k as int));
            assert(u32s_le(s@.take(k + 1)) == u32s_le(s@.take(k as int)) + spec_u32_to_le_bytes(s@[k as int]));
        }
        k = k + 1;
    }
    proof {
        assert(s@.take(k as int) =~= s@);
    }
}

/// Collects the entries of a model and writes its file.
pub struct StaticLmCompiler {
    /// The entries, sorted by row and column.
    entries: Vec<(u32, u32, u8)>,
    /// One more than the largest row of an entry.
    rows: u32,
}

impl StaticLmCompiler {
    /// The entries, sorted by row and column: `(row, column, value)`.
    pub closed spec fn spec_entries(&self) -> Seq<(u32, u32, u8)> {
        self.entries@
    }

    /// The number of rows of the model.
    pub closed spec fn spec_rows(&self) -> u32 {
        self.rows
    }

    /// The value inserted at `(row, col)`, if any.
    pub open spec fn spec_value(&self, row: u32, col: u32) -> Option<u8> {
        entry_value(self.spec_entries(), row, col)
    }

    /// The model that the compiler writes.
    pub open spec fn spec_model(&self) -> LmRows {
        compiled_rows(self.spec_entries(), self.spec_rows())
    }

    /// The entries are sorted and every row is counted.
    pub closed spec fn wf(&self) -> bool {
        &&& entries_sorted(self.entries@)
        &&& forall|k: int| 0 <= k < self.entries@.len() ==> #[trigger] self.entries@[k].0 < self.rows
    }

    /// The number of entries recorded.
    pub fn num_entries(&self) -> (n: usize)
        ensures
            n == self.spec_entries().len(),
    {
        self.entries.len()
    }

    /// The number of rows of the model.
    pub fn num_rows(&self) -> (n: u32)
        ensures
            n == self.spec_rows(),
    {
        self.rows
    }

    /// A compiler with no entry.
    pub fn new() -> (c: StaticLmCompiler)
        ensures
            c.wf(),
            c.spec_entries() == Seq::<(u32, u32, u8)>::empty(),
            c.spec_rows() == 0,
    {
        StaticLmCompiler { entries: Vec::new(), rows: 0 }
    }

    /// Records `quantum`, the quantized log-probability of `col` after
    /// `row`. The first value given for a pair is kept.
    pub fn insert(&mut self, row: WordId, col: WordId, quantum: u8) -> (r: Result<(), StaticLmError>)
        requires
            old(self).wf(),
            row.0 < u32::MAX,
        ensures
            r is Ok,
            final(self).wf(),
            final(self).spec_rows() == if old(self).spec_rows() > row.0 {
                old(self).spec_rows()
            } else {
                (row.0 + 1) as u32
            },
            forall|r: u32, c: u32| #[trigger]
                final(self).spec_value(r, c) == if r == row.0 && c == col.0 && old(self).spec_value(r, c) is None {
                    Some(quantum)
                } else {
                    old(self).spec_value(r, c)
                },
    {
        let ghost es = self.entries@;
        let key = (row.0, col.0, quantum);
        let mut lo: usize = 0;
        let mut hi: usize = self.entries.len();
        while lo < hi
            invariant
                self.entries@ == es,
                entries_sorted(es),
                key == (row.0, col.0, quantum),
                lo <= hi <= es.len(),
                forall|k: int| 0 <= k < lo ==> key_before(#[trigger] es[k], key),
                forall|k: int| hi <= k < es.len() ==> !key_before(#[trigger] es[k], key),
            decreases hi - lo,
        {
            let mid = lo + (hi - lo) / 2;
            let e = self.entries[mid];
            proof {
                assert(e == es[mid as int]);
                assert(key.0 == row.0 && key.1 == col.0);
            }
            if e.0 < row.0 || (e.0 == row.0 && e.1 < col.0) {
                proof {
                    assert forall|k: int| 0 <= k < mid + 1 implies key_before(#[trigger] es[k], key) by {
                        if k < mid {
                            assert(key_before(es[k], es[mid as int]));
                        }
                    }
                }
                lo = mid + 1;
            } else {
                proof {
                    assert forall|k: int| mid <= k < es.len() implies !key_before(#[trigger] es[k], key) by {
                        if k > mid {
                            assert(key_before(es[mid as int], es[k]));
                        }
                    }
                }
                hi = mid;
            }
        }
        proof {
            lemma_entry_value(es, row.0, col.0);
        }
        if lo < self.entries.len() && self.entries[lo].0 == row.0 && self.entries[lo].1 == col.0 {
            return Ok(());
        }
        self.entries.insert(lo, key);
        if self.rows <= row.0 {
            self.rows = row.0 + 1;
        }
        proof {
            let es2 = self.entries@;
            assert(es2 == es.insert(lo as int, key));
            assert(entries_sorted(es2)) by {
                assert forall|i: int, j: int| 0 <= i < j < es2.len() implies key_before(es2[i], es2[j]) by {
                    if j < lo {
                        assert(key_before(es[i], es[j]));
                    } else if j == lo {
                    } else if i < lo {
                        assert(es2[j] == es[j - 1]);
                        assert(!key_before(es[j - 1], key));
                    } else if i == lo {
                        assert(es2[j] == es[j - 1]);
                        assert(!key_before(es[j - 1], key));
                        if j - 1 == lo {
                            assert(!(es[j - 1].0 == row.0 && es[j - 1].1 == col.0));
                        } else {
                            assert(!key_before(es[lo as int], key));
                            assert(key_before(es[lo as int], es[j - 1]));
                        }
                    } else {
                        assert(key_before(es[i - 1], es[j - 1]));
                    }
                }
            }
            assert forall|k: int| 0 <= k < es2.len() implies #[trigger] es2[k].0 < self.rows by {
                if k < lo {
                    assert(es2[k] == es[k]);
                } else if k > lo {
                    assert(es2[k] == es[k - 1]);
                }
            }
            lemma_entry_value(es2, row.0, col.0);
            assert(es2[lo as int] == key);
            assert(entry_value(es, row.0, col.0) is None) by {
                assert forall|k: int| 0 <= k < es.len() implies !(#[trigger] es[k].0 == row.0 && es[k].1
                    == col.0) by {
                    if k < lo {
                        assert(key_before(es[k], key));
                    } else if k > lo {
                        assert(key_before(es[lo as int], es[k]));
                        assert(!key_before(es[lo as int], key));
                    }
                }
            }
            assert forall|r: u32, c: u32| #[trigger]
                entry_value(es2, r, c) == if r == row.0 && c == col.0 && entry_value(es, r, c) is None {
                    Some(quantum)
                } else {
                    entry_value(es, r, c)
                } by {
                lemma_entry_value(es, r, c);
                lemma_entry_value(es2, r, c);
                if !(r == row.0 && c == col.0) {
                    if exists|k: int| 0 <= k < es.len() && #[trigger] es[k].0 == r && es[k].1 == c {
                        let k = choose|k: int| 0 <= k < es.len() && #[trigger] es[k].0 == r && es[k].1 == c;
                        let k2 = if k < lo { k } else { k + 1 };
                        assert(es2[k2] == es[k]);
                    } else {
                        assert forall|j: int| 0 <= j < es2.len() implies !(#[trigger] es2[j].0 == r
                            && es2[j].1 == c) by {
                            if j < lo {
                                assert(es2[j] == es[j]);
                            } else if j > lo {
                                assert(es2[j] == es[j - 1]);
                            }
                        }
                    }
                }
            }
        }
        Ok(())
    }

    /// The bytes of the model file: every entry with a value other than 0,
    /// row by row, each row's columns ascending and delta encoded.
    pub fn to_bytes(&self) -> (out: Vec<u8>)
        requires
            self.wf(),
            5 * self.spec_entries().len() <= u32::MAX,
            self.spec_rows() < u32::MAX,
        ensures
            spec_lm_file(out@) == Ok::<LmRows, StaticLmError>(self.spec_model()),
    {
        let ghost es = self.entries@;
        let n = self.rows as usize;
        let mut ri: Vec<u32> = Vec::new();
        ri.push(0);
        let mut ro: Vec<u32> = Vec::new();
        ro.push(0);
        let mut cd: Vec<u8> = Vec::new();
        let mut vals: Vec<u8> = Vec::new();
        let mut i: usize = 0;
        let mut r: usize = 0;
        while r < n
            invariant
                self.wf(),
                es == self.entries@,
                5 * es.len() <= u32::MAX,
                n == self.rows,
                r <= n,
                i <= es.len(),
                forall|k: int| 0 <= k < i ==> #[trigger] es[k].0 < r,
                forall|k: int| i <= k < es.len() ==> #[trigger] es[k].0 >= r,
                ri@.len() == r + 1,
                ro@.len() == r + 1,
                ri@[0] == 0,
                ro@[0] == 0,
                vals@.len() == ri@[r as int],
                cd@.len() == ro@[r as int],
                vals@.len() <= i,
                cd@.len() <= 5 * i,
                forall|q: int| 0 <= q < r ==> #[trigger] laid_out(es, ri@, ro@, cd@, vals@, q),
            decreases n - r,
        {
            let ghost i0 = i;
            let ghost cd0 = cd@;
            let ghost v0 = vals@;
            let ghost ri0 = ri@;
            let ghost ro0 = ro@;
            let ghost mut cur: Seq<(u32, u8)> = Seq::empty();
            let mut prev: u32 = 0;
            proof {
                assert forall|k: int| 0 <= k < es.take(i as int).len() implies #[trigger] es.take(
                    i as int,
                )[k].0 != r as u32 by {
                    assert(es.take(i as int)[k] == es[k]);
                }
                lemma_row_of_none(es.take(i as int), r as u32);
            }
            while i < self.entries.len() && self.entries[i].0 == r as u32
                invariant
                    self.wf(),
                    es == self.entries@,
                    5 * es.len() <= u32::MAX,
                    r < n,
                    n == self.rows,
                    i0 <= i <= es.len(),
                    forall|k: int| i <= k < es.len() ==> #[trigger] es[k].0 >= r,
                    forall|k: int| 0 <= k < i0 ==> #[trigger] es[k].0 < r,
                    forall|k: int| i0 <= k < i ==> #[trigger] es[k].0 == r,
                    cur == row_of(es.take(i as int), r as u32),
                    cd@.len() >= cd0.len(),
                    cd@.subrange(0, cd0.len() as int) == cd0,
                    dec_cols(cd@, cd0.len() as int, cur.len(), 0) == Some((entry_cols(cur), cd@.len() as int)),
                    vals@.len() == v0.len() + cur.len(),
                    vals@.subrange(0, v0.len() as int) == v0,
                    forall|k: int| 0 <= k < cur.len() ==> vals@[v0.len() + k] == #[trigger] cur[k].1,
                    prev == last_or(entry_cols(cur), 0),
                    strictly_increasing(entry_cols(cur)),
                    cur.len() > 0 ==> forall|k: int| i <= k < es.len() && #[trigger] es[k].0 == r ==> es[k].1 > prev,
                    vals@.len() <= i,
                    cd@.len() <= 5 * i,
                decreases es.len() - i,
            {
                let e = self.entries[i];
                proof {
                    assert(e == es[i as int]);
                    assert(es.take(i + 1).drop_last() =~= es.take(i as int));
                    assert(es.take(i + 1).last() == es[i as int]);
                }
                if e.2 != 0 {
                    let ghost d = cd@;
                    let step = e.1 - prev;
                    proof {
                        lemma_dec_cols_snoc(d, cd0.len() as int, entry_cols(cur), e.1);
                        reveal_with_fuel(pow128, 6);
                        lemma_encode_len(step as nat, 5);
                    }
                    encode_varint(step, &mut cd);
                    vals.push(e.2);
                    proof {
                        let c2 = cur.push((e.1, e.2));
                        assert(entry_cols(c2) =~= entry_cols(cur).push(e.1));
                        assert(strictly_increasing(entry_cols(c2))) by {
                            assert forall|a: int, b: int| 0 <= a < b < entry_cols(c2).len() implies entry_cols(
                                c2,
                            )[a] < entry_cols(c2)[b] by {
                                if b == cur.len() && a < cur.len() - 1 {
                                    assert(entry_cols(cur)[a] < entry_cols(cur)[cur.len() - 1]);
                                } else if b < cur.len() {
                                    assert(entry_cols(cur)[a] < entry_cols(cur)[b]);
                                }
                            }
                        }
                        assert(cd@.subrange(0, cd0.len() as int) =~= d.subrange(0, cd0.len() as int));
                        assert(vals@.subrange(0, v0.len() as int) =~= v0);
                        assert forall|k: int| i + 1 <= k < es.len() && #[trigger] es[k].0 == r implies es[k].1 > e.1 by {
                            assert(key_before(es[i as int], es[k]));
                        }
                        cur = c2;
                    }
                    prev = e.1;
                }
                i = i + 1;
            }
            proof {
                assert forall|k: int| i <= k < es.len() implies #[trigger] es[k].0 != r as u32 by {
                    if i < es.len() {
                        assert(es[i as int].0 != r as u32);
                        if k > i {
                            assert(key_before(es[i as int], es[k]));
                        }
                    }
                }
                lemma_row_of_prefix(es, i as int, r as u32);
            }
            ri.push(vals.len() as u32);
            ro.push(cd.len() as u32);
            proof {
                let x = cd@.subrange(cd0.len() as int, cd@.len() as int);
                assert(cd@ =~= cd0 + x);
                assert(ri@ == ri0.push(vals@.len() as u32));
                assert(ro@ == ro0.push(cd@.len() as u32));
                lemma_lay_out_row(es, ri0, ro0, cd0, v0, x, vals@, cur, r as int);
                assert forall|k: int| i <= k < es.len() implies #[trigger] es[k].0 >= r + 1 by {
                    assert(es[k].0 != r as u32);
                }
            }
            r = r + 1;
        }
        let out = write_lm_file(self.rows, &ri, &ro, &cd, &vals);
        proof {
            lemma_laid_out_file(es, self.rows, ri@, ro@, cd@, vals@);
        }
        out
    }
}

/// What a compiler's model answers at `(row, col)`: the value first
/// inserted there, unless it is 0 (such entries are not written).
pub proof fn lemma_compiled_lookup(c: StaticLmCompiler, row: u32, col: u32)
    requires
        c.wf(),
    ensures
        spec_lm_get(c.spec_model(), row, col) == match c.spec_value(row, col) {
            Some(q) => if q != 0 {
                Some(q)
            } else {
                None
            },
            None => None,
        },
{
    let es = c.spec_entries();
    lemma_entry_value(es, row, col);
    if row < c.spec_rows() {
        lemma_row_of_find(es, row, col);
    } else {
        assert forall|k: int| 0 <= k < es.len() implies !(#[trigger] es[k].0 == row && es[k].1 == col) by {
            assert(es[k].0 < c.spec_rows());
        }
    }
}

/// A model file loaded eagerly and the same file loaded lazily answer
/// every lookup alike.
pub proof fn lemma_load_modes_agree(b: Seq<u8>, eager: StaticLm, lazy: StaticLm, row: u32, col: u32)
    requires
        spec_lm_file(b) is Ok,
        eager.spec_rows() == spec_lm_file(b)->Ok_0,
        eager.spec_mode() == LoadMode::Eager,
        lazy.spec_rows() == spec_lm_file(b)->Ok_0,
        lazy.spec_mode() == LoadMode::Lazy,
    ensures
        spec_lm_get(eager.spec_rows(), row, col) == spec_lm_get(lazy.spec_rows(), row, col),
{
}

/// Writes the bytes of a model file with these parts.
fn write_lm_file(rows: u32, ri: &Vec<u32>, ro: &Vec<u32>, cd: &Vec<u8>, vals: &Vec<u8>) -> (out: Vec<u8>)
    ensures
        out@ == spec_lm_bytes(rows, ri@, ro@, cd@, vals@),
{
    let mut enc = BareEncoder::new(Vec::new());
    enc.write_u8(0x43);
    enc.write_u8(0x48);
    enc.write_u8(0x4c);
    enc.write_u8(0x4d);
    enc.write_uint(0);
    enc.write_u32(0);
    enc.write_u32(rows);
    enc.write_u64(vals.len() as u64);
    enc.write_u64(cd.len() as u64);
    write_u32s(&mut enc, ri);
    write_u32s(&mut enc, ro);
    enc.write_data_exact(cd.as_slice());
    enc.write_data_exact(vals.as_slice());
    let out = enc.into_inner();
    proof {
        assert(out@ =~= spec_lm_bytes(rows, ri@, ro@, cd@, vals@));
    }
    out
}

/// Tables in which every row is laid out make a file that reads back as
/// the compiled model.
proof fn lemma_laid_out_file(
    es: Seq<(u32, u32, u8)>,
    rows: u32,
    ri: Seq<u32>,
    ro: Seq<u32>,
    cd: Seq<u8>,
    vals: Seq<u8>,
)
    requires
        rows < u32::MAX,
        ri.len() == rows + 1,
        ro.len() == rows + 1,
        ri[0] == 0,
        ro[0] == 0,
        vals.len() == ri[rows as int],
        cd.len() == ro[rows as int],
        cd.len() <= u32::MAX,
        forall|q: int| 0 <= q < rows ==> #[trigger] laid_out(es, ri, ro, cd, vals, q),
    ensures
        spec_lm_file(spec_lm_bytes(rows, ri, ro, cd, vals)) == Ok::<LmRows, StaticLmError>(
            compiled_rows(es, rows),
        ),
{
    lemma_lm_bytes_roundtrip(rows, ri, ro, cd, vals);
    lemma_laid_out_valid(es, rows, ri, ro, cd, vals);
}

/// Tables in which every row is laid out are valid and hold the compiled
/// model.
proof fn lemma_laid_out_valid(
    es: Seq<(u32, u32, u8)>,
    rows: u32,
    ri: Seq<u32>,
    ro: Seq<u32>,
    cd: Seq<u8>,
    vals: Seq<u8>,
)
    requires
        ri.len() == rows + 1,
        ro.len() == rows + 1,
        ri[0] == 0,
        ro[0] == 0,
        vals.len() == ri[rows as int],
        forall|q: int| 0 <= q < rows ==> #[trigger] laid_out(es, ri, ro, cd, vals, q),
    ensures
        lm_valid((rows, ri, ro, cd, vals)),
        lm_rows((rows, ri, ro, cd, vals)) == compiled_rows(es, rows),
{
    let p: LmParts = (rows, ri, ro, cd, vals);
    assert forall|q: int| 0 <= q < p.0 implies #[trigger] row_valid(p, q) by {
        assert(laid_out(es, ri, ro, cd, vals, q));
    }
    assert forall|q: int| 0 <= q < rows implies #[trigger] lm_rows(p)[q] == compiled_rows(es, rows)[q] by {
        assert(laid_out(es, ri, ro, cd, vals, q));
        let row = row_of(es, q as u32);
        assert(row_len(p, q) == row.len());
        assert(row_cols(p, q) == Some((entry_cols(row), ro[q + 1] as int)));
        assert forall|k: int| 0 <= k < row.len() implies #[trigger] row_entries(p, q)[k] == row[k] by {
            assert(entry_cols(row)[k] == row[k].0);
            assert(vals[ri[q] + k] == row[k].1);
        }
        assert(row_entries(p, q) =~= row);
    }
    assert(lm_rows(p) =~= compiled_rows(es, rows));
}

/// Appending a row, laid out at the end of the tables, keeps the rows
/// before it laid out.
proof fn lemma_lay_out_row(
    es: Seq<(u32, u32, u8)>,
    ri0: Seq<u32>,
    ro0: Seq<u32>,
    cd0: Seq<u8>,
    v0: Seq<u8>,
    x: Seq<u8>,
    vals: Seq<u8>,
    cur: Seq<(u32, u8)>,
    r: int,
)
    requires
        0 <= r,
        ri0.len() == r + 1,
        ro0.len() == r + 1,
        v0.len() == ri0[r],
        cd0.len() == ro0[r],
        cur == row_of(es, r as u32),
        cd0.len() + x.len() <= u32::MAX,
        vals.len() <= u32::MAX,
        vals.len() == v0.len() + cur.len(),
        vals.subrange(0, v0.len() as int) == v0,
        forall|k: int| 0 <= k < cur.len() ==> vals[v0.len() + k] == #[trigger] cur[k].1,
        dec_cols(cd0 + x, cd0.len() as int, cur.len(), 0) == Some((entry_cols(cur), (cd0 + x).len() as int)),
        strictly_increasing(entry_cols(cur)),
        forall|q: int| 0 <= q < r ==> #[trigger] laid_out(es, ri0, ro0, cd0, v0, q),
    ensures
        forall|q: int|
            0 <= q < r + 1 ==> #[trigger] laid_out(
                es,
                ri0.push(vals.len() as u32),
                ro0.push((cd0 + x).len() as u32),
                cd0 + x,
                vals,
                q,
            ),
{
    let ri = ri0.push(vals.len() as u32);
    let ro = ro0.push((cd0 + x).len() as u32);
    assert forall|q: int| 0 <= q < r + 1 implies #[trigger] laid_out(es, ri, ro, cd0 + x, vals, q) by {
        if q < r {
            assert(laid_out(es, ri0, ro0, cd0, v0, q));
            let row = row_of(es, q as u32);
            lemma_dec_cols_extend(cd0, x, ro0[q] as int, row.len(), 0);
            assert(ri0[q + 1] <= ri0[r]) by {
                lemma_laid_out_monotone(es, ri0, ro0, cd0, v0, q + 1, r);
            }
            assert forall|k: int| 0 <= k < row.len() implies vals[ri[q] + k] == #[trigger] row[k].1 by {
                assert(v0[ri0[q] + k] == row[k].1);
                assert(vals.subrange(0, v0.len() as int)[ri0[q] + k] == v0[ri0[q] + k]);
            }
        }
    }
}

/// The row table of laid out rows does not decrease.
proof fn lemma_laid_out_monotone(
    es: Seq<(u32, u32, u8)>,
    ri: Seq<u32>,
    ro: Seq<u32>,
    cd: Seq<u8>,
    vals: Seq<u8>,
    a: int,
    b: int,
)
    requires
        0 <= a <= b,
        forall|q: int| 0 <= q < b ==> #[trigger] laid_out(es, ri, ro, cd, vals, q),
    ensures
        ri[a] <= ri[b],
    decreases b - a,
{
    if a < b {
        assert(laid_out(es, ri, ro, cd, vals, b - 1));
        lemma_laid_out_monotone(es, ri, ro, cd, vals, a, b - 1);
    }
}

} // verus!
