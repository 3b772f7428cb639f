//! A read-only dictionary over a pre-built trie index, in a DER file.
//!
//! The file is a DER `SEQUENCE` of the magic `CHEW` (`UTF8String`), the
//! format version 0 (`INTEGER`), the dictionary information (a `SEQUENCE` of
//! five `UTF8String` and an optional `[0] EXPLICIT INTEGER`), the index
//! (`OCTET STRING`) and the phrases (`SEQUENCE`). The index is a sequence of
//! 8-byte big endian nodes, laid out as the system dictionary's; a leaf node
//! gives the byte range of its phrases inside the phrase sequence. Each
//! phrase is a `SEQUENCE` of its text (`UTF8String`), its frequency
//! (`INTEGER`) and, optionally, when it was last used (`[0] IMPLICIT
//! INTEGER`). Whatever follows the known fields of a sequence is skipped.

use crate::dictionary::phrase::Phrase;
use crate::dictionary::string_table::str_eq;
use crate::dictionary::LookupStrategy;
use crate::lm::trie_index::{
    as_ints, child_begin, child_count, child_end, node_ok, read_u16, read_u32, spec_trie_layer,
    trie_descend, u16_at, u32_at,
};
use crate::zhuyin::{valid_syllable_value, Syllable};
use der::asn1::{OctetStringRef, Utf8StringRef};
use der::{Decode, Header, Reader, SliceReader, TagMode, TagNumber};
use vstd::prelude::*;
use vstd::slice::{slice_subrange, slice_to_vec};

verus! {

/// What `der::Header::decode` reads at the start of `bytes`: the tag octet,
/// the length of the header and the length of the value.
pub uninterp spec fn der_header_of(bytes: Seq<u8>) -> Option<(u8, nat, nat)>;

/// What `der::asn1::Utf8StringRef::from_der` decodes from `bytes`.
pub uninterp spec fn der_utf8_of(bytes: Seq<u8>) -> Option<Seq<char>>;

/// What `u8::from_der` decodes from `bytes`.
pub uninterp spec fn der_u8_of(bytes: Seq<u8>) -> Option<u8>;

/// What `i32::from_der` decodes from `bytes`.
pub uninterp spec fn der_i32_of(bytes: Seq<u8>) -> Option<i32>;

/// The value of what `der::asn1::OctetStringRef::from_der` decodes from
/// `bytes`.
pub uninterp spec fn der_octets_of(bytes: Seq<u8>) -> Option<Seq<u8>>;

/// What `der::Reader::context_specific` gives for an optional `[0]
/// IMPLICIT` `u64` at the start of `bytes`: `None` on an error, else the
/// field, if present.
pub uninterp spec fn der_implicit_u64_of(bytes: Seq<u8>) -> Option<Option<u64>>;

/// Whether `der::Reader::context_specific` reads an optional `[0] EXPLICIT`
/// `i32` at the start of `bytes` without an error.
pub uninterp spec fn der_explicit_i32_ok(bytes: Seq<u8>) -> bool;

/// A DER INTEGER of at most `max` content bytes: the tag `0x02`, a short
/// length from 1 to `max`, and exactly that many content bytes.
pub open spec fn der_int_layout(bytes: Seq<u8>, max: int) -> bool {
    &&& bytes.len() >= 3
    &&& bytes[0] == 0x02
    &&& 1 <= bytes[1] <= max
    &&& bytes.len() == 2 + bytes[1]
}

/// An `[0] IMPLICIT` unsigned INTEGER field at the start of `bytes`: the
/// tag `0x80`, a short length from 1 to 9, that many content bytes, and a
/// leading zero when there are 9 of them.
pub open spec fn der_ctx_uint_layout(bytes: Seq<u8>) -> bool {
    &&& bytes.len() >= 3
    &&& bytes[0] == 0x80
    &&& 1 <= bytes[1] <= 9
    &&& 2 + bytes[1] <= bytes.len()
    &&& bytes[1] == 9 ==> bytes[2] == 0
}

/// The value of an optional `[0] IMPLICIT` unsigned INTEGER at the start of
/// `bytes`, read from its content bytes.
pub open spec fn ctx_uint_value(bytes: Seq<u8>, field: Option<u64>) -> Option<u64> {
    match field {
        Some(_) => Some(be_unsigned(bytes.subrange(2, 2 + bytes[1])) as u64),
        None => None,
    }
}

/// `256` to the power `n`.
pub open spec fn pow256(n: nat) -> nat
    decreases n,
{
    if n == 0 {
        1
    } else {
        256 * pow256((n - 1) as nat)
    }
}

/// The bytes read as an unsigned big-endian number.
pub open spec fn be_unsigned(c: Seq<u8>) -> nat
    decreases c.len(),
{
    if c.len() == 0 {
        0
    } else {
        be_unsigned(c.drop_last()) * 256 + c.last() as nat
    }
}

/// The value of the content of a DER INTEGER: the bytes read as a
/// big-endian two's complement number.
pub open spec fn der_int_value(c: Seq<u8>) -> int {
    if c.len() > 0 && c[0] >= 0x80 {
        be_unsigned(c) - pow256(c.len())
    } else {
        be_unsigned(c) as int
    }
}

/// An unsigned big-endian number of `n` bytes is below `256^n`, and at
/// least `128 * 256^(n-1)` exactly when its first byte is `0x80` or more.
proof fn lemma_be_unsigned_bounds(c: Seq<u8>)
    ensures
        be_unsigned(c) < pow256(c.len()),
        c.len() > 0 ==> (c[0] >= 0x80 <==> be_unsigned(c) >= 128 * pow256((c.len() - 1) as nat)),
    decreases c.len(),
{
    if c.len() > 0 {
        let d = c.drop_last();
        lemma_be_unsigned_bounds(d);
        let n = d.len();
        assert(be_unsigned(c) == be_unsigned(d) * 256 + c.last());
        assert(pow256(c.len()) == 256 * pow256(n));
        assert(be_unsigned(d) * 256 + c.last() < 256 * pow256(n)) by (nonlinear_arith)
            requires
                be_unsigned(d) < pow256(n),
                c.last() < 256,
        ;
        if n > 0 {
            assert(d[0] == c[0]);
            assert(pow256(n) == 256 * pow256((n - 1) as nat));
            let p = pow256((n - 1) as nat);
            assert(be_unsigned(d) >= 128 * p ==> be_unsigned(d) * 256 + c.last() >= 128 * (256 * p)) by (nonlinear_arith);
            assert(be_unsigned(d) < 128 * p ==> be_unsigned(d) * 256 + c.last() < 128 * (256 * p)) by (nonlinear_arith)
                requires
                    c.last() < 256,
            ;
        } else {
            assert(be_unsigned(d) == 0);
            assert(c[0] == c.last());
        }
    }
}

/// The value of the content of a DER INTEGER of `n` bytes is the number,
/// among `-128 * 256^(n-1)` to `128 * 256^(n-1) - 1`, that the bytes spell
/// modulo `256^n`.
pub proof fn lemma_der_int_value(c: Seq<u8>)
    requires
        c.len() >= 1,
    ensures
        -128 * pow256((c.len() - 1) as nat) <= der_int_value(c) < 128 * pow256((c.len() - 1) as nat),
        (der_int_value(c) - be_unsigned(c)) % (pow256(c.len()) as int) == 0,
{
    lemma_be_unsigned_bounds(c);
    let n = (c.len() - 1) as nat;
    assert(pow256(c.len()) == 256 * pow256(n));
    if c[0] >= 0x80 {
        assert((der_int_value(c) - be_unsigned(c)) == -(pow256(c.len()) as int));
        vstd::arithmetic::div_mod::lemma_mod_self_0(pow256(c.len()) as int);
        assert((-(pow256(c.len()) as int)) % (pow256(c.len()) as int) == 0) by {
            vstd::arithmetic::div_mod::lemma_mod_multiples_basic(-1, pow256(c.len()) as int);
        }
    } else {
        assert((der_int_value(c) - be_unsigned(c)) == 0);
        assert(pow256(c.len()) > 0);
        vstd::arithmetic::div_mod::lemma_mod_multiples_basic(0, pow256(c.len()) as int);
    }
}

/// Whether the bytes read as an unsigned big-endian number are zero: every
/// byte is zero.
fn is_zero_content(c: &[u8]) -> (r: bool)
    ensures
        r == (be_unsigned(c@) == 0),
{
    let mut i: usize = 0;
    while i < c.len()
        invariant
            i <= c@.len(),
            be_unsigned(c@.take(i as int)) == 0,
        decreases c@.len() - i,
    {
        proof {
            assert(c@.take(i + 1).drop_last() =~= c@.take(i as int));
        }
        if c[i] != 0 {
            proof {
                lemma_be_unsigned_zero_prefix(c@, i + 1);
            }
            return false;
        }
        i = i + 1;
    }
    proof {
        assert(c@.take(c@.len() as int) =~= c@);
    }
    true
}

/// A non-zero byte makes the number of every longer prefix non-zero.
proof fn lemma_be_unsigned_zero_prefix(c: Seq<u8>, k: int)
    requires
        1 <= k <= c.len(),
        c[k - 1] != 0,
    ensures
        be_unsigned(c) > 0,
    decreases c.len(),
{
    if k < c.len() {
        assert(c.drop_last()[k - 1] == c[k - 1]);
        lemma_be_unsigned_zero_prefix(c.drop_last(), k);
    } else {
        assert(c.last() == c[k - 1]);
    }
}

/// The value of the content of an unsigned DER INTEGER of one to nine
/// bytes, nine only with a leading zero.
fn uint_content(c: &[u8]) -> (v: u64)
    requires
        1 <= c@.len() <= 9,
        c@.len() == 9 ==> c@[0] == 0,
    ensures
        v == be_unsigned(c@),
{
    let n = c.len();
    let mut acc: u64 = 0;
    let mut i: usize = 0;
    proof {
        reveal_with_fuel(pow256, 9);
    }
    while i < n
        invariant
            n == c@.len(),
            1 <= n <= 9,
            n == 9 ==> c@[0] == 0,
            i <= n,
            acc == be_unsigned(c@.take(i as int)),
            n <= 8 ==> acc < pow256(i as nat),
            n == 9 && i >= 1 ==> acc < pow256((i - 1) as nat),
            n == 9 && i == 0 ==> acc == 0,
            pow256(7) == 0x100_0000_0000_0000,
            forall|k: nat| k < 8 ==> #[trigger] pow256(k + 1) == 256 * pow256(k),
            forall|k: nat| k <= 7 ==> #[trigger] pow256(k) <= 0x100_0000_0000_0000,
        decreases n - i,
    {
        proof {
            assert(c@.take(i + 1).drop_last() =~= c@.take(i as int));
            let b = c@[i as int];
            if n <= 8 {
                assert(i <= 7);
                assert(acc * 256 + b < 256 * pow256(i as nat)) by (nonlinear_arith)
                    requires
                        acc < pow256(i as nat),
                        b < 256,
                ;
                assert(pow256((i + 1) as nat) == 256 * pow256(i as nat));
            } else if i >= 1 {
                assert(i - 1 <= 7);
                assert(acc * 256 + b < 256 * pow256((i - 1) as nat)) by (nonlinear_arith)
                    requires
                        acc < pow256((i - 1) as nat),
                        b < 256,
                ;
                assert(pow256(i as nat) == 256 * pow256((i - 1) as nat));
            } else {
                assert(b == 0);
            }
            assert(acc * 256 + b < 0x1_0000_0000_0000_0000) by (nonlinear_arith)
                requires
                    acc < 0x100_0000_0000_0000 || acc == 0,
                    b < 256,
            ;
        }
        acc = acc * 256 + c[i] as u64;
        i = i + 1;
    }
    proof {
        assert(c@.take(n as int) =~= c@);
    }
    acc
}

/// The value of the content of a DER INTEGER of one to four bytes.
fn der_int_content(c: &[u8]) -> (v: i32)
    requires
        1 <= c@.len() <= 4,
    ensures
        v == der_int_value(c@),
{
    let mut acc: u64 = 0;
    let mut i: usize = 0;
    while i < c.len()
        invariant
            i <= c@.len() <= 4,
            acc == be_unsigned(c@.take(i as int)),
            acc < pow256(i as nat),
        decreases c@.len() - i,
    {
        proof {
            assert(c@.take(i + 1).drop_last() =~= c@.take(i as int));
            reveal_with_fuel(pow256, 5);
            assert(pow256((i + 1) as nat) == 256 * pow256(i as nat));
            assert(pow256(i as nat) <= 0x100_0000);
            assert(acc * 256 + c@[i as int] < 256 * pow256(i as nat)) by (nonlinear_arith)
                requires
                    acc < pow256(i as nat),
                    c@[i as int] < 256,
            ;
        }
        acc = acc * 256 + c[i] as u64;
        i = i + 1;
    }
    proof {
        assert(c@.take(c@.len() as int) =~= c@);
        lemma_be_unsigned_bounds(c@);
        reveal_with_fuel(pow256, 5);
    }
    let n = c.len();
    let full: u64 = if n == 1 {
        0x100
    } else if n == 2 {
        0x1_0000
    } else if n == 3 {
        0x100_0000
    } else {
        0x1_0000_0000
    };
    let top: u64 = full / 2;
    if c[0] >= 0x80 {
        proof {
            assert(top == 128 * pow256((n - 1) as nat));
            assert(acc >= top);
        }
        (acc as i64 - full as i64) as i32
    } else {
        proof {
            assert(top == 128 * pow256((n - 1) as nat));
            assert(acc < top);
        }
        acc as i32
    }
}

/// `der::Header::decode` on a reader over `bytes`: the tag octet, the
/// number of header bytes read and the value length. The header is read
/// from `bytes`, so it is at least one byte and at most all of them long.
#[verifier::external_body]
fn der_header(bytes: &[u8]) -> (r: Option<(u8, usize, usize)>)
    ensures
        match der_header_of(bytes@) {
            Some((t, h, l)) => r == Some((t, h as usize, l as usize)) && 1 <= h <= bytes@.len() && l
                <= u32::MAX,
            None => r is None,
        },
{
    let mut reader = SliceReader::new(bytes).ok()?;
    let header = Header::decode(&mut reader).ok()?;
    Some((u8::from(header.tag), u32::from(reader.position()) as usize, u32::from(header.length) as usize))
}

/// `der::asn1::Utf8StringRef::from_der`, the string copied out.
#[verifier::external_body]
fn der_utf8(bytes: &[u8]) -> (r: Option<String>)
    ensures
        match der_utf8_of(bytes@) {
            Some(s) => r matches Some(v) && v@ == s,
            None => r is None,
        },
{
    match Utf8StringRef::from_der(bytes) {
        Ok(s) => Some(String::from(s.as_str())),
        Err(_) => None,
    }
}

/// `u8::from_der`: whether `bytes` are exactly one DER INTEGER that fits a
/// `u8`. It is then a tag `0x02`, a one-byte length of 1 or 2 (longer
/// contents do not fit, an empty one and a long-form length are not
/// canonical) and the content; the library reads the value from the content
/// itself.
#[verifier::external_body]
fn der_u8(bytes: &[u8]) -> (r: Option<u8>)
    ensures
        r == der_u8_of(bytes@),
        r is Some ==> der_int_layout(bytes@, 2),
{
    u8::from_der(bytes).ok()
}

/// `i32::from_der`: whether `bytes` are exactly one DER INTEGER that fits an
/// `i32`. It is then a tag `0x02`, a one-byte length from 1 to 4 (longer
/// contents do not fit, an empty one and a long-form length are not
/// canonical) and the content; the library reads the value from the content
/// itself.
#[verifier::external_body]
fn der_i32(bytes: &[u8]) -> (r: Option<i32>)
    ensures
        r == der_i32_of(bytes@),
        r is Some ==> der_int_layout(bytes@, 4),
{
    i32::from_der(bytes).ok()
}

/// `der::asn1::OctetStringRef::from_der`, the value copied out.
#[verifier::external_body]
fn der_octets(bytes: &[u8]) -> (r: Option<Vec<u8>>)
    ensures
        match der_octets_of(bytes@) {
            Some(s) => r matches Some(v) && v@ == s,
            None => r is None,
        },
{
    match OctetStringRef::from_der(bytes) {
        Ok(s) => Some(s.as_bytes().to_vec()),
        Err(_) => None,
    }
}

/// `der::Reader::context_specific::<u64>` with tag number 0, implicit, on a
/// reader over `bytes`. When it finds the field, the bytes start with the
/// tag `0x80`, a one-byte length from 1 to 9 (a `u64` fits in 8 bytes and a
/// leading zero; an empty content and a long-form length are not
/// canonical, and 9 bytes need that leading zero) and the content; the
/// library reads the value from the content itself.
#[verifier::external_body]
fn der_implicit_u64(bytes: &[u8]) -> (r: Option<Option<u64>>)
    ensures
        r == der_implicit_u64_of(bytes@),
        r matches Some(Some(_)) ==> der_ctx_uint_layout(bytes@),
{
    let mut reader = SliceReader::new(bytes).ok()?;
    reader.context_specific::<u64>(TagNumber::N0, TagMode::Implicit).ok()
}

/// Whether `der::Reader::context_specific::<i32>` with tag number 0,
/// explicit, succeeds on a reader over `bytes`.
#[verifier::external_body]
fn der_explicit_i32(bytes: &[u8]) -> (r: bool)
    ensures
        r == der_explicit_i32_ok(bytes@),
{
    match SliceReader::new(bytes) {
        Ok(mut reader) => reader.context_specific::<i32>(TagNumber::N0, TagMode::Explicit).is_ok(),
        Err(_) => false,
    }
}

/// The element at `pos` that must end by `end`: its tag octet and the
/// bounds of its value.
pub open spec fn spec_tlv(b: Seq<u8>, pos: int, end: int) -> Option<(u8, int, int)> {
    if 0 <= pos <= end <= b.len() {
        match der_header_of(b.subrange(pos, end)) {
            Some((t, h, l)) => if pos + h + l <= end {
                Some((t, pos + h, pos + h + l))
            } else {
                None
            },
            None => None,
        }
    } else {
        None
    }
}

/// Reads the header of the element at `pos`, which must end by `end`.
fn read_tlv(b: &[u8], pos: usize, end: usize) -> (r: Option<(u8, usize, usize)>)
    requires
        pos <= end <= b@.len(),
    ensures
        match spec_tlv(b@, pos as int, end as int) {
            Some((t, vs, ve)) => r == Some((t, vs as usize, ve as usize)),
            None => r is None,
        },
{
    let sub = slice_subrange(b, pos, end);
    proof {
        assert(sub@ == b@.subrange(pos as int, end as int));
    }
    let (t, h, l) = match der_header(sub) {
        Some(x) => x,
        None => {
            return None;
        },
    };
    if l > end - pos - h {
        return None;
    }
    Some((t, pos + h, pos + h + l))
}

/// A phrase as the file holds it: text, frequency and last use.
pub type PhraseFields = (Seq<char>, i32, Option<u64>);

/// The fields of a phrase.
pub open spec fn phrase_fields(p: Phrase) -> PhraseFields {
    (p.spec_text(), p.spec_freq(), p.spec_last_used())
}

/// The phrase at `pos`, which must end by `end`, and the position after it.
pub open spec fn spec_phrase_at(d: Seq<u8>, pos: int, end: int) -> Option<(PhraseFields, int)> {
    match spec_tlv(d, pos, end) {
        Some((0x30, cs, ce)) => match spec_tlv(d, cs, ce) {
            Some((_, _, t_end)) => match der_utf8_of(d.subrange(cs, t_end)) {
                Some(text) => match spec_tlv(d, t_end, ce) {
                    Some((_, _, f_end)) => match der_i32_of(d.subrange(t_end, f_end)) {
                        Some(_) => match der_implicit_u64_of(d.subrange(f_end, ce)) {
                            Some(field) => Some(
                                (
                                    (
                                        text,
                                        der_int_value(d.subrange(t_end + 2, f_end)) as i32,
                                        ctx_uint_value(d.subrange(f_end, ce), field),
                                    ),
                                    ce,
                                ),
                            ),
                            None => None,
                        },
                        None => None,
                    },
                    None => None,
                },
                None => None,
            },
            None => None,
        },
        _ => None,
    }
}

/// The phrases from `pos` to `end`, one after the other, up to the first
/// that does not decode.
pub open spec fn spec_phrases(d: Seq<u8>, pos: int, end: int) -> Seq<PhraseFields>
    decreases end - pos,
{
    if pos >= end {
        Seq::empty()
    } else {
        match spec_phrase_at(d, pos, end) {
            Some((p, next)) => if pos < next {
                seq![p] + spec_phrases(d, next, end)
            } else {
                Seq::empty()
            },
            None => Seq::empty(),
        }
    }
}

/// Decodes the phrase at `pos`, which must end by `end`.
fn decode_phrase(d: &[u8], pos: usize, end: usize) -> (r: Option<(Phrase, usize)>)
    requires
        pos <= end <= d@.len(),
    ensures
        match spec_phrase_at(d@, pos as int, end as int) {
            Some((p, next)) => r matches Some((q, n)) && phrase_fields(q) == p && n == next,
            None => r is None,
        },
{
    let (t, cs, ce) = match read_tlv(d, pos, end) {
        Some(x) => x,
        None => {
            return None;
        },
    };
    if t != 0x30 {
        return None;
    }
    let (_, _, t_end) = match read_tlv(d, cs, ce) {
        Some(x) => x,
        None => {
            return None;
        },
    };
    let text = match der_utf8(slice_subrange(d, cs, t_end)) {
        Some(s) => s,
        None => {
            return None;
        },
    };
    let (_, _, f_end) = match read_tlv(d, t_end, ce) {
        Some(x) => x,
        None => {
            return None;
        },
    };
    if der_i32(slice_subrange(d, t_end, f_end)).is_none() {
        return None;
    }
    proof {
        assert(d@.subrange(t_end as int, f_end as int).subrange(2, (f_end - t_end) as int) =~= d@.subrange(
            t_end + 2,
            f_end as int,
        ));
    }
    let freq = der_int_content(slice_subrange(d, t_end + 2, f_end));
    let last_used = match der_implicit_u64(slice_subrange(d, f_end, ce)) {
        Some(None) => None,
        Some(Some(_)) => {
            let ghost rest = d@.subrange(f_end as int, ce as int);
            let l = d[f_end + 1] as usize;
            proof {
                assert(rest[1] == d@[f_end + 1]);
                assert(rest.subrange(2, 2 + l) =~= d@.subrange(f_end + 2, f_end + 2 + l));
                assert(rest[2] == d@[f_end + 2]);
            }
            Some(uint_content(slice_subrange(d, f_end + 2, f_end + 2 + l)))
        },
        None => {
            return None;
        },
    };
    Some((Phrase::with_last_used(text.as_str(), freq, last_used), ce))
}

/// Appends the phrases from `begin` to `end` to `out`.
fn push_phrases(d: &[u8], begin: usize, end: usize, out: &mut Vec<Phrase>)
    requires
        begin <= end <= d@.len(),
    ensures
        final(out)@.map_values(|p: Phrase| phrase_fields(p)) == old(out)@.map_values(
            |p: Phrase| phrase_fields(p),
        ) + spec_phrases(d@, begin as int, end as int),
{
    let ghost start = out@.map_values(|p: Phrase| phrase_fields(p));
    let mut pos = begin;
    while pos < end
        invariant
            begin <= pos <= end <= d@.len(),
            start == old(out)@.map_values(|p: Phrase| phrase_fields(p)),
            start + spec_phrases(d@, begin as int, end as int) == out@.map_values(
                |p: Phrase| phrase_fields(p),
            ) + spec_phrases(d@, pos as int, end as int),
        decreases end - pos,
    {
        let ghost before = out@;
        match decode_phrase(d, pos, end) {
            Some((p, next)) => {
                if next <= pos {
                    proof {
                        assert(spec_phrases(d@, pos as int, end as int) == Seq::<PhraseFields>::empty());
                        assert(out@.map_values(|p: Phrase| phrase_fields(p)) + Seq::<PhraseFields>::empty()
                            =~= out@.map_values(|p: Phrase| phrase_fields(p)));
                    }
                    return;
                }
                out.push(p);
                proof {
                    assert(out@.map_values(|p: Phrase| phrase_fields(p)) =~= before.map_values(
                        |p: Phrase| phrase_fields(p),
                    ).push(phrase_fields(p)));
                    assert(spec_phrases(d@, pos as int, end as int) == seq![phrase_fields(p)]
                        + spec_phrases(d@, next as int, end as int));
                    assert(before.map_values(|p: Phrase| phrase_fields(p)) + (seq![phrase_fields(p)]
                        + spec_phrases(d@, next as int, end as int)) =~= out@.map_values(
                        |p: Phrase| phrase_fields(p),
                    ) + spec_phrases(d@, next as int, end as int));
                }
                pos = next;
            },
            None => {
                proof {
                    assert(spec_phrases(d@, pos as int, end as int) == Seq::<PhraseFields>::empty());
                    assert(out@.map_values(|p: Phrase| phrase_fields(p)) + Seq::<PhraseFields>::empty()
                        =~= out@.map_values(|p: Phrase| phrase_fields(p)));
                }
                return;
            },
        }
    }
}

/// The phrases of the leaf under the node at `n`, or `None` when the node is
/// corrupt. A node whose first child is not a leaf gives no phrase.
pub open spec fn leaf_phrases(d: Seq<u8>, data: Seq<u8>, n: int) -> Option<Seq<PhraseFields>> {
    let leaf = child_begin(d, n, true);
    if !node_ok(d, n, true) || leaf + 8 > d.len() {
        None
    } else if u16_at(d, leaf + 6, true) != 0 {
        Some(Seq::empty())
    } else {
        let db = u32_at(d, leaf, true);
        let de = db + u16_at(d, leaf + 4, true);
        if db >= de || de > data.len() {
            None
        } else {
            Some(spec_phrases(data, db, de))
        }
    }
}

/// The phrases of the leaves under the nodes of `layer`, or `None` when a
/// node is corrupt.
pub open spec fn collect_phrases(d: Seq<u8>, data: Seq<u8>, layer: Seq<int>) -> Option<
    Seq<PhraseFields>,
>
    decreases layer.len(),
{
    if layer.len() == 0 {
        Some(Seq::empty())
    } else {
        match collect_phrases(d, data, layer.drop_last()) {
            None => None,
            Some(prev) => match leaf_phrases(d, data, layer.last()) {
                None => None,
                Some(ps) => Some(prev + ps),
            },
        }
    }
}

/// The phrases spelled by `syls`, in trie order; nothing when the index is
/// corrupt on the way.
pub open spec fn spec_trie_phrases(
    d: Seq<u8>,
    data: Seq<u8>,
    syls: Seq<Syllable>,
    strategy: LookupStrategy,
) -> Seq<PhraseFields> {
    match spec_trie_layer(d, syls, true, strategy) {
        None => Seq::empty(),
        Some(layer) => match collect_phrases(d, data, layer) {
            None => Seq::empty(),
            Some(ps) => ps,
        },
    }
}

/// The fields of each phrase.
pub open spec fn phrases_fields(ps: Seq<Phrase>) -> Seq<PhraseFields> {
    ps.map_values(|p: Phrase| phrase_fields(p))
}

/// Appends the phrases of the leaf under `node` to `out`; `false` when the
/// node is corrupt.
fn push_leaf_phrases(index: &[u8], data: &[u8], node: usize, out: &mut Vec<Phrase>) -> (ok: bool)
    requires
        node + 8 <= index@.len(),
    ensures
        ok == (leaf_phrases(index@, data@, node as int) is Some),
        ok ==> phrases_fields(final(out)@) == phrases_fields(old(out)@) + leaf_phrases(
            index@,
            data@,
            node as int,
        )->0,
{
    let len = index.len();
    let first = read_u32(index, node, true);
    let cb = first * 8;
    let ce = (first + read_u16(index, node + 4, true)) * 8;
    if cb >= ce || ce > index.len() as u64 || cb + 8 > index.len() as u64 {
        return false;
    }
    let leaf = cb as usize;
    if read_u16(index, leaf + 6, true) != 0 {
        proof {
            assert(phrases_fields(old(out)@) + Seq::<PhraseFields>::empty() =~= phrases_fields(old(out)@));
        }
        return true;
    }
    let db = read_u32(index, leaf, true);
    let de = db + read_u16(index, leaf + 4, true);
    if db >= de || de > data.len() as u64 {
        return false;
    }
    push_phrases(data, db as usize, de as usize, out);
    true
}

/// The bytes `CHEW`, as characters.
pub open spec fn spec_trie_magic() -> Seq<char> {
    seq!['C', 'H', 'E', 'W']
}

/// The five strings of the dictionary information, from `pos` to `end`,
/// then the optional usage field: the position after the fifth string.
pub open spec fn spec_info_strings(b: Seq<u8>, pos: int, end: int, k: nat) -> Option<int>
    decreases k,
{
    if k == 0 {
        Some(pos)
    } else {
        match spec_tlv(b, pos, end) {
            Some((_, _, s_end)) => if der_utf8_of(b.subrange(pos, s_end)) is Some {
                spec_info_strings(b, s_end, end, (k - 1) as nat)
            } else {
                None
            },
            None => None,
        }
    }
}

/// The dictionary information at `pos`, which must end by `end`: the
/// position after it.
pub open spec fn spec_info_at(b: Seq<u8>, pos: int, end: int) -> Option<int> {
    match spec_tlv(b, pos, end) {
        Some((0x30, is, ie)) => match spec_info_strings(b, is, ie, 5) {
            Some(p) => if der_explicit_i32_ok(b.subrange(p, ie)) {
                Some(ie)
            } else {
                None
            },
            None => None,
        },
        _ => None,
    }
}

/// The contents of a dictionary file after its magic and version, from
/// `pos` to `end`: the index and the phrase sequence.
pub open spec fn spec_trie_body(b: Seq<u8>, pos: int, end: int) -> Option<(Seq<u8>, Seq<u8>)> {
    match spec_info_at(b, pos, end) {
        Some(ie) => match spec_tlv(b, ie, end) {
            Some((_, _, x_end)) => match der_octets_of(b.subrange(ie, x_end)) {
                Some(index) => match spec_tlv(b, x_end, end) {
                    Some((0x30, ps, pe)) => Some((index, b.subrange(ps, pe))),
                    _ => None,
                },
                None => None,
            },
            None => None,
        },
        None => None,
    }
}

/// Reads a dictionary file: a single `SEQUENCE` that fills the input,
/// starting with the magic `CHEW` and the version 0.
pub open spec fn spec_trie_file(b: Seq<u8>) -> Option<(Seq<u8>, Seq<u8>)> {
    match spec_tlv(b, 0, b.len() as int) {
        Some((0x30, cs, ce)) => if ce != b.len() {
            None
        } else {
            match spec_tlv(b, cs, ce) {
                Some((_, _, m_end)) => match spec_tlv(b, m_end, ce) {
                    Some((_, _, v_end)) => if der_utf8_of(b.subrange(cs, m_end)) == Some(spec_trie_magic())
                        && der_u8_of(b.subrange(m_end, v_end)) is Some && be_unsigned(
                        b.subrange(m_end + 2, v_end),
                    ) == 0 {
                        spec_trie_body(b, v_end, ce)
                    } else {
                        None
                    },
                    None => None,
                },
                None => None,
            }
        },
        _ => None,
    }
}

/// Why a dictionary file could not be read.
#[derive(Debug, Clone, Copy, PartialEq, Eq, Structural)]
pub enum TrieError {
    /// The bytes are not a dictionary file of the known version.
    InvalidData,
}

/// Whether a string is `CHEW`.
fn is_trie_magic(s: &str) -> (r: bool)
    ensures
        r == (s@ == spec_trie_magic()),
{
    let magic = "CHEW";
    proof {
        reveal_strlit("CHEW");
        assert(magic@ =~= spec_trie_magic());
    }
    str_eq(s, magic)
}

/// Skips the five strings of the dictionary information.
fn read_info_strings(b: &[u8], pos: usize, end: usize) -> (r: Option<usize>)
    requires
        pos <= end <= b@.len(),
    ensures
        match spec_info_strings(b@, pos as int, end as int, 5) {
            Some(p) => r == Some(p as usize) && pos <= p <= end,
            None => r is None,
        },
{
    let mut p = pos;
    let mut k: usize = 0;
    while k < 5
        invariant
            pos <= p <= end <= b@.len(),
            k <= 5,
            spec_info_strings(b@, pos as int, end as int, 5) == spec_info_strings(
                b@,
                p as int,
                end as int,
                (5 - k) as nat,
            ),
        decreases 5 - k,
    {
        let (_, _, s_end) = match read_tlv(b, p, end) {
            Some(x) => x,
            None => {
                return None;
            },
        };
        if der_utf8(slice_subrange(b, p, s_end)).is_none() {
            return None;
        }
        p = s_end;
        k = k + 1;
    }
    Some(p)
}

/// Reads the index and the phrase sequence of a dictionary file.
fn parse_trie_file(b: &[u8]) -> (r: Option<(Vec<u8>, Vec<u8>)>)
    ensures
        match spec_trie_file(b@) {
            Some((index, phrases)) => r matches Some((i, p)) && i@ == index && p@ == phrases,
            None => r is None,
        },
{
    let len = b.len();
    let (t, cs, ce) = match read_tlv(b, 0, len) {
        Some(x) => x,
        None => {
            return None;
        },
    };
    if t != 0x30 || ce != len {
        return None;
    }
    let (_, _, m_end) = match read_tlv(b, cs, ce) {
        Some(x) => x,
        None => {
            return None;
        },
    };
    let (_, _, v_end) = match read_tlv(b, m_end, ce) {
        Some(x) => x,
        None => {
            return None;
        },
    };
    let magic = der_utf8(slice_subrange(b, cs, m_end));
    let version_ok = match der_u8(slice_subrange(b, m_end, v_end)) {
        Some(_) => {
            proof {
                assert(b@.subrange(m_end as int, v_end as int).subrange(2, (v_end - m_end) as int)
                    =~= b@.subrange(m_end + 2, v_end as int));
            }
            is_zero_content(slice_subrange(b, m_end + 2, v_end))
        },
        None => false,
    };
    let magic_ok = match &magic {
        Some(s) => is_trie_magic(s.as_str()),
        None => false,
    };
    if !magic_ok || !version_ok {
        return None;
    }
    let (it, is, ie) = match read_tlv(b, v_end, ce) {
        Some(x) => x,
        None => {
            return None;
        },
    };
    if it != 0x30 {
        return None;
    }
    let p = match read_info_strings(b, is, ie) {
        Some(p) => p,
        None => {
            return None;
        },
    };
    if !der_explicit_i32(slice_subrange(b, p, ie)) {
        return None;
    }
    let (_, _, x_end) = match read_tlv(b, ie, ce) {
        Some(x) => x,
        None => {
            return None;
        },
    };
    let index = match der_octets(slice_subrange(b, ie, x_end)) {
        Some(v) => v,
        None => {
            return None;
        },
    };
    let (pt, ps, pe) = match read_tlv(b, x_end, ce) {
        Some(x) => x,
        None => {
            return None;
        },
    };
    if pt != 0x30 {
        return None;
    }
    let phrases = slice_to_vec(slice_subrange(b, ps, pe));
    Some((index, phrases))
}

/// Options and flags which can be used to configure how a trie dictionary is
/// opened.
#[derive(Debug, Clone, Copy, PartialEq, Eq, Structural)]
pub struct TrieOpenOptions {
    fuzzy_search: bool,
}

impl TrieOpenOptions {
    /// Whether the dictionaries opened will do fuzzy search.
    pub closed spec fn spec_fuzzy_search(&self) -> bool {
        self.fuzzy_search
    }

    /// Options with fuzzy search off.
    pub fn new() -> (o: TrieOpenOptions)
        ensures
            !o.spec_fuzzy_search(),
    {
        TrieOpenOptions { fuzzy_search: false }
    }

    /// Turns fuzzy search on or off.
    pub fn fuzzy_search(&mut self, fuzzy_search: bool) -> (r: &mut Self)
        ensures
            r.spec_fuzzy_search() == fuzzy_search,
            *final(self) == *final(r),
    {
        self.fuzzy_search = fuzzy_search;
        self
    }

    /// Reads a dictionary from the bytes of its file.
    pub fn read_from(&self, bytes: &[u8]) -> (r: Result<Trie, TrieError>)
        ensures
            match spec_trie_file(bytes@) {
                Some((index, phrases)) => r matches Ok(t) && t.spec_index() == index
                    && t.spec_phrase_seq() == phrases && t.spec_fuzzy_search()
                    == self.spec_fuzzy_search() && t.spec_path() is None,
                None => r == Err::<Trie, TrieError>(TrieError::InvalidData),
            },
    {
        match parse_trie_file(bytes) {
            Some((index, phrase_seq)) => Ok(Trie { path: None, index, phrase_seq, fuzzy_search: self.fuzzy_search }),
            None => Err(TrieError::InvalidData),
        }
    }

    /// Reads a dictionary from the bytes of the file at `path`.
    pub fn open(&self, path: String, bytes: &[u8]) -> (r: Result<Trie, TrieError>)
        ensures
            match spec_trie_file(bytes@) {
                Some((index, phrases)) => r matches Ok(t) && t.spec_index() == index
                    && t.spec_phrase_seq() == phrases && t.spec_fuzzy_search()
                    == self.spec_fuzzy_search() && t.spec_path() == Some(path@),
                None => r == Err::<Trie, TrieError>(TrieError::InvalidData),
            },
    {
        match self.read_from(bytes) {
            Ok(mut trie) => {
                trie.path = Some(path);
                Ok(trie)
            },
            Err(e) => Err(e),
        }
    }
}

/// An entry of the dictionary: the syllables on the way to a leaf, and the
/// phrases of the leaf.
pub type TrieEntry = (Seq<u16>, Seq<PhraseFields>);

/// A node still to walk, with the syllables on the way to it.
pub type Pending = (int, Seq<u16>);

/// The syllable of the node at `c`.
pub open spec fn syl_at(d: Seq<u8>, c: int) -> u16 {
    u16_at(d, c + 6, true) as u16
}

/// The children of `n` from the `from`-th on, each with the syllables on
/// the way to it.
pub open spec fn rem_children(d: Seq<u8>, n: int, p: Seq<u16>, from: int) -> Seq<Pending> {
    let cb = child_begin(d, n, true);
    Seq::new(
        (child_count(d, n, true) - from) as nat,
        |i: int| (cb + 8 * (from + i), p.push(syl_at(d, cb + 8 * (from + i)))),
    )
}

/// The walk down from node `n`, reached by the syllables `p`: at each node,
/// go on to the first child that is not a leaf, until a node whose only
/// child is a leaf. Gives the leaves met, the deepest first, and the other
/// children of the nodes passed, those of the deepest node first; `None`
/// when a node or a leaf is corrupt or the walk is deeper than `fuel`.
pub open spec fn chain(d: Seq<u8>, data: Seq<u8>, n: int, p: Seq<u16>, fuel: nat) -> Option<
    (Seq<TrieEntry>, Seq<Pending>),
>
    decreases fuel,
{
    if fuel == 0 || !node_ok(d, n, true) {
        None
    } else {
        let cb = child_begin(d, n, true);
        if u16_at(d, cb + 6, true) == 0 {
            let db = u32_at(d, cb, true);
            let de = db + u16_at(d, cb + 4, true);
            if db >= de || de > data.len() {
                None
            } else {
                let e = (p, spec_phrases(data, db, de));
                if child_count(d, n, true) == 1 {
                    Some((seq![e], Seq::empty()))
                } else {
                    match chain(d, data, cb + 8, p.push(syl_at(d, cb + 8)), (fuel - 1) as nat) {
                        None => None,
                        Some((es, more)) => Some((es.push(e), more + rem_children(d, n, p, 2))),
                    }
                }
            }
        } else {
            match chain(d, data, cb, p.push(syl_at(d, cb)), (fuel - 1) as nat) {
                None => None,
                Some((es, more)) => Some((es, more + rem_children(d, n, p, 1))),
            }
        }
    }
}

/// Walks the pending nodes, the first first, each walk putting the nodes it
/// leaves for later in front of the others: the entries met, and whether
/// the walk got to the end (it stops at a corrupt node, and after `fuel`
/// walks).
pub open spec fn traverse(d: Seq<u8>, data: Seq<u8>, pending: Seq<Pending>, fuel: nat) -> (
    Seq<TrieEntry>,
    bool,
)
    decreases fuel,
{
    if pending.len() == 0 {
        (Seq::empty(), true)
    } else if fuel == 0 {
        (Seq::empty(), false)
    } else {
        match chain(d, data, pending[0].0, pending[0].1, d.len() / 8 + 1) {
            None => (Seq::empty(), false),
            Some((es, more)) => {
                let (rest, ok) = traverse(d, data, more + pending.drop_first(), (fuel - 1) as nat);
                (es + rest, ok)
            },
        }
    }
}

/// Each phrase of each entry, with the entry's syllables.
pub open spec fn flatten_entries(es: Seq<TrieEntry>) -> Seq<(Seq<u16>, PhraseFields)>
    decreases es.len(),
{
    if es.len() == 0 {
        Seq::empty()
    } else {
        flatten_entries(es.drop_last()) + es.last().1.map_values(
            |f: PhraseFields| (es.last().0, f),
        )
    }
}

/// All the phrases of the dictionary with their syllables, walking the
/// index from the root.
pub open spec fn spec_trie_entries(d: Seq<u8>, data: Seq<u8>) -> Seq<(Seq<u16>, PhraseFields)> {
    if d.len() < 8 {
        Seq::empty()
    } else {
        flatten_entries(traverse(d, data, seq![(0int, Seq::<u16>::empty())], d.len() / 8 + 1).0)
    }
}

/// The entries the walk meets, each with all its phrases.
pub open spec fn walk_entries(d: Seq<u8>, data: Seq<u8>) -> Seq<TrieEntry> {
    if d.len() < 8 {
        Seq::empty()
    } else {
        traverse(d, data, seq![(0int, Seq::<u16>::empty())], d.len() / 8 + 1).0
    }
}

/// Every path along which the walk reaches phrases holds valid syllables.
pub open spec fn entries_paths_valid(d: Seq<u8>, data: Seq<u8>) -> bool {
    forall|k: int|
        0 <= k < walk_entries(d, data).len() ==> paths_valid(#[trigger] walk_entries(d, data)[k].0)
}

/// A copy of the syllables.
fn copy_path(p: &Vec<u16>) -> (r: Vec<u16>)
    ensures
        r@ == p@,
{
    let mut r: Vec<u16> = Vec::new();
    let mut i: usize = 0;
    while i < p.len()
        invariant
            i <= p@.len(),
            r@ == p@.take(i as int),
        decreases p.len() - i,
    {
        r.push(p[i]);
        proof {
            assert(p@.take(i + 1) =~= p@.take(i as int).push(p@[i as int]));
        }
        i = i + 1;
    }
    proof {
        assert(p@.take(i as int) =~= p@);
    }
    r
}

/// The entries in spec form.
pub open spec fn entries_view(v: Seq<(Vec<u16>, Vec<Phrase>)>) -> Seq<TrieEntry> {
    v.map_values(|e: (Vec<u16>, Vec<Phrase>)| (e.0@, phrases_fields(e.1@)))
}

/// The pending nodes in spec form.
pub open spec fn pending_view(v: Seq<(usize, Vec<u16>)>) -> Seq<Pending> {
    v.map_values(|e: (usize, Vec<u16>)| (e.0 as int, e.1@))
}

/// Appends the children of the node at `n`, from the `from`-th on, with
/// their syllables, to `more`.
fn push_rem_children(
    index: &[u8],
    n: usize,
    path: &Vec<u16>,
    from: u64,
    more: &mut Vec<(usize, Vec<u16>)>,
)
    requires
        node_ok(index@, n as int, true),
        n + 8 <= index@.len(),
        1 <= from <= child_count(index@, n as int, true),
        forall|k: int| 0 <= k < old(more)@.len() ==> #[trigger] old(more)@[k].0 + 8 <= index@.len(),
    ensures
        pending_view(final(more)@) == pending_view(old(more)@) + rem_children(
            index@,
            n as int,
            path@,
            from as int,
        ),
        forall|k: int| 0 <= k < final(more)@.len() ==> #[trigger] final(more)@[k].0 + 8 <= index@.len(),
{
    let ghost d = index@;
    let len = index.len();
    let cb = read_u32(index, n, true) * 8;
    let cnt = read_u16(index, n + 4, true);
    let ghost base = pending_view(more@);
    let mut i = from;
    proof {
        assert(base + rem_children(d, n as int, path@, from as int).take(0) =~= pending_view(more@));
    }
    while i < cnt
        invariant
            d == index@,
            len == d.len(),
            node_ok(d, n as int, true),
            cb == child_begin(d, n as int, true),
            cnt == child_count(d, n as int, true),
            from <= i <= cnt,
            pending_view(more@) == base + rem_children(d, n as int, path@, from as int).take(i - from),
            forall|k: int| 0 <= k < more@.len() ==> #[trigger] more@[k].0 + 8 <= d.len(),
        decreases cnt - i,
    {
        let c = (cb + 8 * i) as usize;
        let mut p = copy_path(path);
        p.push(read_u16(index, c + 6, true) as u16);
        let ghost before = pending_view(more@);
        more.push((c, p));
        proof {
            let rc = rem_children(d, n as int, path@, from as int);
            assert(rc.take(i + 1 - from) =~= rc.take(i - from).push(rc[i - from]));
            assert(pending_view(more@) =~= before.push((c as int, p@)));
        }
        i = i + 1;
    }
    proof {
        let rc = rem_children(d, n as int, path@, from as int);
        assert(rc.take(cnt - from) =~= rc);
    }
}

/// Walks down from the node at `n`, as `chain` describes it.
fn walk_chain(index: &[u8], data: &[u8], n: usize, path: Vec<u16>, fuel: usize) -> (r: Option<
    (Vec<(Vec<u16>, Vec<Phrase>)>, Vec<(usize, Vec<u16>)>),
>)
    requires
        n + 8 <= index@.len(),
    ensures
        match chain(index@, data@, n as int, path@, fuel as nat) {
            None => r is None,
            Some((es, more)) => r matches Some((e, m)) && entries_view(e@) == es && pending_view(m@)
                == more && forall|k: int| 0 <= k < m@.len() ==> #[trigger] m@[k].0 + 8 <= index@.len(),
        },
    decreases fuel,
{
    let ghost d = index@;
    let len = index.len();
    if fuel == 0 {
        return None;
    }
    let first = read_u32(index, n, true);
    let cnt = read_u16(index, n + 4, true);
    let cb = first * 8;
    let ce = (first + cnt) * 8;
    if !(cb < ce && ce <= len as u64) {
        return None;
    }
    let cbu = cb as usize;
    let s0 = read_u16(index, cbu + 6, true);
    if s0 == 0 {
        let db = read_u32(index, cbu, true);
        let de = db + read_u16(index, cbu + 4, true);
        if db >= de || de > data.len() as u64 {
            return None;
        }
        let mut phrases: Vec<Phrase> = Vec::new();
        push_phrases(data, db as usize, de as usize, &mut phrases);
        proof {
            assert(phrases_fields(Seq::<Phrase>::empty()) =~= Seq::<PhraseFields>::empty());
            assert(Seq::<PhraseFields>::empty() + spec_phrases(data@, db as int, de as int) =~= spec_phrases(
                data@,
                db as int,
                de as int,
            ));
        }
        let e = (copy_path(&path), phrases);
        if cnt == 1 {
            let mut es: Vec<(Vec<u16>, Vec<Phrase>)> = Vec::new();
            es.push(e);
            let more: Vec<(usize, Vec<u16>)> = Vec::new();
            proof {
                assert(entries_view(es@) =~= seq![(path@, spec_phrases(data@, db as int, de as int))]);
                assert(pending_view(more@) =~= Seq::<Pending>::empty());
            }
            return Some((es, more));
        }
        let nx = cbu + 8;
        let mut p2 = copy_path(&path);
        p2.push(read_u16(index, nx + 6, true) as u16);
        match walk_chain(index, data, nx, p2, fuel - 1) {
            None => None,
            Some((es, more)) => {
                let mut es = es;
                let mut more = more;
                let ghost es0 = entries_view(es@);
                es.push(e);
                proof {
                    assert(entries_view(es@) =~= es0.push((path@, spec_phrases(data@, db as int, de as int))));
                }
                push_rem_children(index, n, &path, 2, &mut more);
                Some((es, more))
            },
        }
    } else {
        let mut p2 = copy_path(&path);
        p2.push(s0 as u16);
        match walk_chain(index, data, cbu, p2, fuel - 1) {
            None => None,
            Some((es, more)) => {
                let mut more = more;
                push_rem_children(index, n, &path, 1, &mut more);
                Some((es, more))
            },
        }
    }
}

/// Every value is a syllable.
pub open spec fn paths_valid(p: Seq<u16>) -> bool {
    forall|i: int| 0 <= i < p.len() ==> #[trigger] valid_syllable_value(p[i])
}

/// The packed values of the syllables.
pub open spec fn syllable_values(s: Seq<Syllable>) -> Seq<u16> {
    s.map_values(|x: Syllable| x.spec_value())
}

/// The entries of the dictionary in spec form.
pub open spec fn entries_fields(r: Seq<(Vec<Syllable>, Phrase)>) -> Seq<(Seq<u16>, PhraseFields)> {
    r.map_values(|e: (Vec<Syllable>, Phrase)| (syllable_values(e.0@), phrase_fields(e.1)))
}

/// Pushes the elements of `more` onto `stack`, the last first.
fn push_reversed<T>(stack: &mut Vec<T>, more: Vec<T>)
    ensures
        final(stack)@ == old(stack)@ + more@.reverse(),
{
    let ghost m0 = more@;
    let ghost s0 = stack@;
    let mut more = more;
    proof {
        assert(m0.subrange(m0.len() as int, m0.len() as int).reverse() =~= Seq::<T>::empty());
        assert(s0 + Seq::<T>::empty() =~= s0);
    }
    while more.len() > 0
        invariant
            more@ == m0.take(more@.len() as int),
            more@.len() <= m0.len(),
            stack@ == s0 + m0.subrange(more@.len() as int, m0.len() as int).reverse(),
        decreases more.len(),
    {
        let ghost mv = more@;
        let ghost sv = stack@;
        match more.pop() {
            Some(x) => {
                stack.push(x);
                proof {
                    let j = mv.len() - 1;
                    assert(x == m0[j]);
                    assert(more@ =~= m0.take(j));
                    assert(m0.subrange(j, m0.len() as int) =~= seq![x] + m0.subrange(j + 1, m0.len() as int));
                    assert(m0.subrange(j, m0.len() as int).reverse() =~= m0.subrange(j + 1, m0.len() as int).reverse().push(x));
                    assert(stack@ =~= s0 + m0.subrange(j, m0.len() as int).reverse());
                }
            },
            None => {},
        }
    }
    proof {
        assert(m0.subrange(0, m0.len() as int) =~= m0);
    }
}

/// Pushing `m` in reverse onto `s` puts `m`, in order, in front of the
/// pending nodes.
proof fn lemma_pending_view_append_rev(s: Seq<(usize, Vec<u16>)>, m: Seq<(usize, Vec<u16>)>)
    ensures
        pending_view(s + m.reverse()).reverse() == pending_view(m) + pending_view(s).reverse(),
{
    let lhs = pending_view(s + m.reverse()).reverse();
    let rhs = pending_view(m) + pending_view(s).reverse();
    assert(lhs.len() == rhs.len());
    assert forall|k: int| 0 <= k < lhs.len() implies lhs[k] == rhs[k] by {
        let n = s.len() + m.len();
        assert(lhs[k] == pending_view(s + m.reverse())[n - 1 - k]);
        if k < m.len() {
            assert((s + m.reverse())[n - 1 - k] == m.reverse()[n - 1 - k - s.len()]);
            assert(m.reverse()[n - 1 - k - s.len()] == m[k]);
        } else {
            assert((s + m.reverse())[n - 1 - k] == s[n - 1 - k]);
            assert(pending_view(s).reverse()[k - m.len()] == pending_view(s)[s.len() - 1 - (k - m.len())]);
        }
    }
    assert(lhs =~= rhs);
}

/// Flattening two runs of entries one after the other.
proof fn lemma_flatten_append(a: Seq<TrieEntry>, b: Seq<TrieEntry>)
    ensures
        flatten_entries(a + b) == flatten_entries(a) + flatten_entries(b),
    decreases b.len(),
{
    if b.len() == 0 {
        assert(a + b =~= a);
        assert(flatten_entries(a) + Seq::<(Seq<u16>, PhraseFields)>::empty() =~= flatten_entries(a));
    } else {
        assert((a + b).drop_last() =~= a + b.drop_last());
        assert((a + b).last() == b.last());
        lemma_flatten_append(a, b.drop_last());
        assert(flatten_entries(a + b) =~= flatten_entries(a) + flatten_entries(b));
    }
}

/// The syllables of packed values that all name one.
fn to_syllables(p: &Vec<u16>) -> (r: Vec<Syllable>)
    requires
        paths_valid(p@),
    ensures
        syllable_values(r@) == p@,
{
    let mut r: Vec<Syllable> = Vec::new();
    let mut i: usize = 0;
    while i < p.len()
        invariant
            i <= p@.len(),
            paths_valid(p@),
            syllable_values(r@) == p@.take(i as int),
        decreases p.len() - i,
    {
        let v = p[i];
        proof {
            assert(valid_syllable_value(p@[i as int]));
        }
        match Syllable::try_from_u16(v) {
            Some(s) => {
                let ghost before = r@;
                r.push(s);
                proof {
                    assert(syllable_values(r@) =~= syllable_values(before).push(v));
                    assert(p@.take(i + 1) =~= p@.take(i as int).push(v));
                }
            },
            None => {},
        }
        i = i + 1;
    }
    proof {
        assert(p@.take(i as int) =~= p@);
    }
    r
}

/// A copy of the syllables.
fn copy_syllables(s: &Vec<Syllable>) -> (r: Vec<Syllable>)
    ensures
        r@ == s@,
{
    let mut r: Vec<Syllable> = Vec::new();
    let mut i: usize = 0;
    while i < s.len()
        invariant
            i <= s@.len(),
            r@ == s@.take(i as int),
        decreases s.len() - i,
    {
        r.push(s[i]);
        proof {
            assert(s@.take(i + 1) =~= s@.take(i as int).push(s@[i as int]));
        }
        i = i + 1;
    }
    proof {
        assert(s@.take(i as int) =~= s@);
    }
    r
}

/// Whether every value of every path names a syllable.
fn entries_valid(es: &Vec<(Vec<u16>, Vec<Phrase>)>) -> (r: bool)
    ensures
        r <==> forall|k: int| 0 <= k < es@.len() ==> paths_valid(#[trigger] es@[k].0@),
{
    let mut k: usize = 0;
    while k < es.len()
        invariant
            k <= es@.len(),
            forall|j: int| 0 <= j < k ==> paths_valid(#[trigger] es@[j].0@),
        decreases es@.len() - k,
    {
        let p = &es[k].0;
        let mut i: usize = 0;
        while i < p.len()
            invariant
                i <= p@.len(),
                k < es@.len(),
                *p == es@[k as int].0,
                forall|j: int| 0 <= j < i ==> valid_syllable_value(#[trigger] p@[j]),
            decreases p@.len() - i,
        {
            if Syllable::try_from_u16(p[i]).is_none() {
                proof {
                    assert(!valid_syllable_value(es@[k as int].0@[i as int]));
                    assert(!paths_valid(es@[k as int].0@));
                }
                return false;
            }
            i = i + 1;
        }
        k = k + 1;
    }
    true
}

/// Appends each phrase of each entry, with the entry's syllables, to `out`.
fn append_entries(out: &mut Vec<(Vec<Syllable>, Phrase)>, es: Vec<(Vec<u16>, Vec<Phrase>)>)
    requires
        forall|k: int| 0 <= k < es@.len() ==> paths_valid(#[trigger] es@[k].0@),
    ensures
        entries_fields(final(out)@) == entries_fields(old(out)@) + flatten_entries(entries_view(es@)),
{
    let ghost all = entries_view(es@);
    let ghost base = entries_fields(out@);
    let mut rest = es;
    let mut k: usize = 0;
    let n = rest.len();
    proof {
        assert(all.take(0) =~= Seq::<TrieEntry>::empty());
        assert(base + flatten_entries(all.take(0)) =~= base);
    }
    while k < n
        invariant
            n == all.len(),
            k <= n,
            entries_view(rest@) == all.subrange(k as int, n as int),
            forall|j: int| 0 <= j < rest@.len() ==> paths_valid(#[trigger] rest@[j].0@),
            entries_fields(out@) == base + flatten_entries(all.take(k as int)),
        decreases n - k,
    {
        proof {
            assert(entries_view(rest@).len() == rest@.len());
            assert(entries_view(rest@)[0] == all[k as int]);
            assert(paths_valid(rest@[0].0@));
        }
        let ghost rest0 = rest@;
        let (path, phrases) = rest.remove(0);
        proof {
            assert forall|j: int| 0 <= j < rest@.len() implies #[trigger] entries_view(rest@)[j] == all.subrange(
                k + 1,
                n as int,
            )[j] by {
                assert(rest@[j] == rest0[j + 1]);
                assert(entries_view(rest0)[j + 1] == all[k + 1 + j]);
            }
            assert(entries_view(rest@) =~= all.subrange(k + 1, n as int));
            assert forall|j: int| 0 <= j < rest@.len() implies paths_valid(#[trigger] rest@[j].0@) by {
                assert(rest@[j] == rest0[j + 1]);
            }
        }
        let syls = to_syllables(&path);
        let ghost fs = phrases_fields(phrases@);
        let ghost mid = entries_fields(out@);
        let mut ph = phrases;
        let m = ph.len();
        let mut i: usize = 0;
        proof {
            assert(fs.take(0).map_values(|f: PhraseFields| (path@, f)) =~= Seq::<(Seq<u16>, PhraseFields)>::empty());
            assert(mid + Seq::<(Seq<u16>, PhraseFields)>::empty() =~= mid);
        }
        while i < m
            invariant
                m == fs.len(),
                i <= m,
                phrases_fields(ph@) == fs.subrange(i as int, m as int),
                syllable_values(syls@) == path@,
                entries_fields(out@) == mid + fs.take(i as int).map_values(|f: PhraseFields| (path@, f)),
            decreases m - i,
        {
            proof {
                assert(phrases_fields(ph@).len() == ph@.len());
                assert(phrases_fields(ph@)[0] == fs[i as int]);
            }
            let ghost ph0 = ph@;
            let p = ph.remove(0);
            proof {
                assert forall|j: int| 0 <= j < ph@.len() implies #[trigger] phrases_fields(ph@)[j] == fs.subrange(
                    i + 1,
                    m as int,
                )[j] by {
                    assert(ph@[j] == ph0[j + 1]);
                    assert(phrases_fields(ph0)[j + 1] == fs[i + 1 + j]);
                }
                assert(phrases_fields(ph@) =~= fs.subrange(i + 1, m as int));
            }
            let ghost before = entries_fields(out@);
            out.push((copy_syllables(&syls), p));
            proof {
                assert(entries_fields(out@) =~= before.push((path@, phrase_fields(p))));
                assert(fs.take(i + 1).map_values(|f: PhraseFields| (path@, f)) =~= fs.take(i as int).map_values(
                    |f: PhraseFields| (path@, f),
                ).push((path@, fs[i as int])));
            }
            i = i + 1;
        }
        proof {
            assert(fs.take(m as int) =~= fs);
            assert(all.take(k + 1).drop_last() =~= all.take(k as int));
            assert(all.take(k + 1).last() == (path@, fs));
            assert(flatten_entries(all.take(k + 1)) == flatten_entries(all.take(k as int)) + fs.map_values(
                |f: PhraseFields| (path@, f),
            ));
        }
        k = k + 1;
    }
    proof {
        assert(all.take(n as int) =~= all);
    }
}

/// A read-only dictionary over a trie index.
#[derive(Debug, Clone)]
pub struct Trie {
    path: Option<String>,
    index: Vec<u8>,
    phrase_seq: Vec<u8>,
    fuzzy_search: bool,
}

impl Trie {
    /// The trie index.
    pub closed spec fn spec_index(&self) -> Seq<u8> {
        self.index@
    }

    /// The phrase sequence the leaves point into.
    pub closed spec fn spec_phrase_seq(&self) -> Seq<u8> {
        self.phrase_seq@
    }

    /// Whether fuzzy search is enabled.
    pub closed spec fn spec_fuzzy_search(&self) -> bool {
        self.fuzzy_search
    }

    /// Where the dictionary was read from, if it was a file.
    pub closed spec fn spec_path(&self) -> Option<Seq<char>> {
        match self.path {
            Some(p) => Some(p@),
            None => None,
        }
    }

    /// The phrases that `syllables` spell.
    pub open spec fn spec_lookup(&self, syllables: Seq<Syllable>, strategy: LookupStrategy) -> Seq<
        PhraseFields,
    > {
        spec_trie_phrases(self.spec_index(), self.spec_phrase_seq(), syllables, strategy)
    }

    /// Reads a dictionary from the bytes of its file, with fuzzy search
    /// off.
    pub fn new(bytes: &[u8]) -> (r: Result<Trie, TrieError>)
        ensures
            match spec_trie_file(bytes@) {
                Some((index, phrases)) => r matches Ok(t) && t.spec_index() == index
                    && t.spec_phrase_seq() == phrases && !t.spec_fuzzy_search() && t.spec_path() is None,
                None => r == Err::<Trie, TrieError>(TrieError::InvalidData),
            },
    {
        TrieOpenOptions::new().read_from(bytes)
    }

    /// Reads a dictionary from the bytes of the file at `path`, with fuzzy
    /// search off.
    pub fn open(path: String, bytes: &[u8]) -> (r: Result<Trie, TrieError>)
        ensures
            match spec_trie_file(bytes@) {
                Some((index, phrases)) => r matches Ok(t) && t.spec_index() == index
                    && t.spec_phrase_seq() == phrases && !t.spec_fuzzy_search() && t.spec_path()
                    == Some(path@),
                None => r == Err::<Trie, TrieError>(TrieError::InvalidData),
            },
    {
        TrieOpenOptions::new().open(path, bytes)
    }

    /// Enables or disables fuzzy search.
    pub fn enable_fuzzy_search(&mut self, fuzzy_search: bool)
        ensures
            final(self).spec_fuzzy_search() == fuzzy_search,
            final(self).spec_index() == old(self).spec_index(),
            final(self).spec_phrase_seq() == old(self).spec_phrase_seq(),
            final(self).spec_path() == old(self).spec_path(),
    {
        self.fuzzy_search = fuzzy_search;
    }

    /// Where the dictionary was read from, if it was a file.
    pub fn path(&self) -> (r: Option<&str>)
        ensures
            match self.spec_path() {
                Some(p) => r matches Some(s) && s@ == p,
                None => r is None,
            },
    {
        match &self.path {
            Some(p) => Some(p.as_str()),
            None => None,
        }
    }

    /// Every phrase of the dictionary with its syllables, walking the index
    /// depth first from the root; `None` when a path to a phrase holds a
    /// value that names no syllable.
    pub fn try_entries(&self) -> (r: Option<Vec<(Vec<Syllable>, Phrase)>>)
        ensures
            r is Some <==> entries_paths_valid(self.spec_index(), self.spec_phrase_seq()),
            r matches Some(v) ==> entries_fields(v@) == spec_trie_entries(
                self.spec_index(),
                self.spec_phrase_seq(),
            ),
    {
        let ghost d = self.index@;
        let ghost data = self.phrase_seq@;
        let index = self.index.as_slice();
        let phrase_seq = self.phrase_seq.as_slice();
        let mut out: Vec<(Vec<Syllable>, Phrase)> = Vec::new();
        if index.len() < 8 {
            proof {
                assert(entries_fields(out@) =~= Seq::<(Seq<u16>, PhraseFields)>::empty());
            }
            return Some(out);
        }
        let limit = index.len() / 8 + 1;
        let mut stack: Vec<(usize, Vec<u16>)> = Vec::new();
        stack.push((0, Vec::new()));
        let mut fuel = limit;
        let ghost total = traverse(d, data, seq![(0int, Seq::<u16>::empty())], limit as nat).0;
        let ghost mut done: Seq<TrieEntry> = Seq::empty();
        proof {
            assert(pending_view(stack@).reverse() =~= seq![(0int, Seq::<u16>::empty())]);
            assert(entries_fields(out@) + flatten_entries(total) =~= flatten_entries(total));
            assert(done + total =~= total);
        }
        while stack.len() > 0 && fuel > 0
            invariant
                d == index@,
                d == self.index@,
                data == phrase_seq@,
                data == self.phrase_seq@,
                total == traverse(d, data, seq![(0int, Seq::<u16>::empty())], (d.len() / 8 + 1) as nat).0,
                total == walk_entries(d, data),
                limit == d.len() / 8 + 1,
                d.len() >= 8,
                fuel <= limit,
                forall|k: int| 0 <= k < stack@.len() ==> #[trigger] stack@[k].0 + 8 <= d.len(),
                forall|k: int| 0 <= k < done.len() ==> paths_valid(#[trigger] done[k].0),
                total == done + traverse(d, data, pending_view(stack@).reverse(), fuel as nat).0,
                flatten_entries(total) == entries_fields(out@) + flatten_entries(
                    traverse(d, data, pending_view(stack@).reverse(), fuel as nat).0,
                ),
            decreases fuel,
        {
            let ghost pending = pending_view(stack@).reverse();
            let top = stack.pop();
            let (c, p) = match top {
                Some(x) => x,
                None => {
                    return Some(out);
                },
            };
            proof {
                assert(pending[0] == (c as int, p@));
                assert(pending.drop_first() =~= pending_view(stack@).reverse());
            }
            match walk_chain(index, phrase_seq, c, p, limit) {
                None => {
                    proof {
                        assert(traverse(d, data, pending, fuel as nat).0 == Seq::<TrieEntry>::empty());
                        assert(flatten_entries(Seq::<TrieEntry>::empty()) == Seq::<(Seq<u16>, PhraseFields)>::empty());
                        assert(entries_fields(out@) + Seq::<(Seq<u16>, PhraseFields)>::empty() =~= entries_fields(
                            out@,
                        ));
                        assert(total =~= done);
                        assert forall|k: int| 0 <= k < walk_entries(d, data).len() implies paths_valid(
                            #[trigger] walk_entries(d, data)[k].0,
                        ) by {
                            assert(total[k] == done[k]);
                        }
                    }
                    return Some(out);
                },
                Some((es, more)) => {
                    let ghost ses = chain(d, data, c as int, p@, limit as nat)->Some_0.0;
                    let ghost rest = traverse(
                        d,
                        data,
                        chain(d, data, c as int, p@, limit as nat)->Some_0.1 + pending.drop_first(),
                        (fuel - 1) as nat,
                    ).0;
                    proof {
                        assert(traverse(d, data, pending, fuel as nat).0 == ses + rest);
                        assert(total =~= (done + ses) + rest);
                    }
                    if !entries_valid(&es) {
                        proof {
                            let k = choose|k: int| 0 <= k < es@.len() && !paths_valid(#[trigger] es@[k].0@);
                            assert(entries_view(es@)[k] == ses[k]);
                            assert(total[done.len() + k] == ses[k]);
                            assert(!paths_valid(walk_entries(d, data)[done.len() + k].0));
                        }
                        return None;
                    }
                    proof {
                        lemma_flatten_append(ses, rest);
                        assert forall|k: int| 0 <= k < (done + ses).len() implies paths_valid(
                            #[trigger] (done + ses)[k].0,
                        ) by {
                            if k >= done.len() {
                                assert(entries_view(es@)[k - done.len()] == ses[k - done.len()]);
                            }
                        }
                        done = done + ses;
                    }
                    append_entries(&mut out, es);
                    let ghost stack_before = stack@;
                    let ghost mv = more@;
                    push_reversed(&mut stack, more);
                    proof {
                        let smore = chain(d, data, c as int, p@, limit as nat)->Some_0.1;
                        assert forall|k: int| 0 <= k < stack@.len() implies #[trigger] stack@[k].0 + 8 <= d.len() by {
                            if k >= stack_before.len() {
                                assert(stack@[k] == mv[mv.len() - 1 - (k - stack_before.len())]);
                            } else {
                                assert(stack@[k] == stack_before[k]);
                            }
                        }
                        lemma_pending_view_append_rev(stack_before, mv);
                        assert(pending_view(stack@).reverse() =~= smore + pending.drop_first());
                    }
                },
            }
            fuel = fuel - 1;
        }
        proof {
            if stack@.len() == 0 {
                assert(pending_view(stack@).reverse() =~= Seq::<Pending>::empty());
            }
            assert(entries_fields(out@) + Seq::<(Seq<u16>, PhraseFields)>::empty() =~= entries_fields(out@));
            assert(total =~= done);
            assert forall|k: int| 0 <= k < walk_entries(d, data).len() implies paths_valid(
                #[trigger] walk_entries(d, data)[k].0,
            ) by {
                assert(total[k] == done[k]);
            }
        }
        Some(out)
    }

    /// Every phrase of the dictionary with its syllables, walking the index
    /// depth first from the root.
    pub fn entries(&self) -> (r: Vec<(Vec<Syllable>, Phrase)>)
        requires
            entries_paths_valid(self.spec_index(), self.spec_phrase_seq()),
        ensures
            entries_fields(r@) == spec_trie_entries(self.spec_index(), self.spec_phrase_seq()),
    {
        match self.try_entries() {
            Some(v) => v,
            None => {
                proof {
                    assert(false);
                }
                Vec::new()
            },
        }
    }

    /// The phrases that `syllables` spell, in trie order.
    pub fn lookup(&self, syllables: &[Syllable], strategy: LookupStrategy) -> (r: Vec<Phrase>)
        ensures
            phrases_fields(r@) == self.spec_lookup(syllables@, strategy),
    {
        let ghost d = self.index@;
        let ghost data = self.phrase_seq@;
        let index = self.index.as_slice();
        let threads = match trie_descend(index, syllables, strategy, true) {
            Some(t) => t,
            None => {
                proof {
                    assert(phrases_fields(Seq::<Phrase>::empty()) =~= Seq::<PhraseFields>::empty());
                }
                return Vec::new();
            },
        };
        let ghost layer = as_ints(threads@);
        let mut result: Vec<Phrase> = Vec::new();
        proof {
            assert(layer.take(0) =~= Seq::<int>::empty());
            assert(phrases_fields(result@) =~= Seq::<PhraseFields>::empty());
        }
        let mut j: usize = 0;
        while j < threads.len()
            invariant
                d == index@,
                d == self.index@,
                data == self.phrase_seq@,
                spec_trie_layer(d, syllables@, true, strategy) == Some(layer),
                layer == as_ints(threads@),
                forall|k: int| 0 <= k < threads@.len() ==> #[trigger] threads@[k] + 8 <= d.len(),
                0 <= j <= threads@.len(),
                collect_phrases(d, data, layer.take(j as int)) == Some(phrases_fields(result@)),
            decreases threads@.len() - j,
        {
            let node = threads[j];
            proof {
                assert(layer.take(j + 1).drop_last() =~= layer.take(j as int));
                assert(layer.take(j + 1).last() == node as int);
            }
            if !push_leaf_phrases(index, self.phrase_seq.as_slice(), node, &mut result) {
                proof {
                    lemma_collect_phrases_none_stays(d, data, layer, j + 1);
                    assert(phrases_fields(Seq::<Phrase>::empty()) =~= Seq::<PhraseFields>::empty());
                }
                return Vec::new();
            }
            j = j + 1;
        }
        proof {
            assert(layer.take(threads@.len() as int) =~= layer);
        }
        result
    }
}

proof fn lemma_collect_phrases_none_stays(d: Seq<u8>, data: Seq<u8>, layer: Seq<int>, m: int)
    requires
        0 < m <= layer.len(),
        collect_phrases(d, data, layer.take(m)) is None,
    ensures
        collect_phrases(d, data, layer) is None,
    decreases layer.len() - m,
{
    if m == layer.len() {
        assert(layer.take(m) =~= layer);
    } else {
        assert(layer.take(m + 1).drop_last() =~= layer.take(m));
        lemma_collect_phrases_none_stays(d, data, layer, m + 1);
    }
}

} // verus!
