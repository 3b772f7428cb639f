//! Binary Application Record Encoding (BARE)
//!
//! Ref: <https://www.ietf.org/archive/id/draft-devault-bare-15.html>
//!
//! Integers are little endian; `uint` is the LEB128 variable length
//! encoding of a `u64`; `data` is a `uint` length followed by the bytes.

use vstd::bytes::*;
use vstd::prelude::*;
use vstd::slice::{slice_subrange, slice_to_vec};

verus! {

/// Why a value could not be decoded.
#[derive(Debug, Clone, Copy, PartialEq, Eq, Structural)]
pub enum BareError {
    /// The input ended before the value did.
    UnexpectedEof,
    /// A `uint` longer than ten bytes or larger than `u64::MAX`.
    InvalidUint,
}

pub open spec fn pow128(i: nat) -> int
    decreases i,
{
    if i == 0 {
        1
    } else {
        128 * pow128((i - 1) as nat)
    }
}

/// Decodes the `uint` whose byte `i` is at `bytes[i]`, with `acc` the value of
/// the bytes before it. Returns the value and the number of bytes used.
pub open spec fn uint_scan(bytes: Seq<u8>, i: nat, acc: int) -> Result<(u64, nat), BareError>
    decreases 10 - i,
{
    if i >= 10 {
        Err(BareError::InvalidUint)
    } else if i >= bytes.len() {
        Err(BareError::UnexpectedEof)
    } else if i == 9 && bytes[i as int] > 1 {
        Err(BareError::InvalidUint)
    } else if bytes[i as int] < 0x80 {
        Ok(((acc + bytes[i as int] * pow128(i)) as u64, i + 1))
    } else {
        uint_scan(bytes, i + 1, acc + (bytes[i as int] % 128) * pow128(i))
    }
}

/// Decodes a `uint` at the start of `bytes`.
pub open spec fn spec_decode_uint(bytes: Seq<u8>) -> Result<(u64, nat), BareError> {
    uint_scan(bytes, 0, 0)
}

/// The `uint` encoding of `v`: seven bits per byte, low bits first, the high
/// bit set on every byte but the last.
pub open spec fn spec_encode_uint(v: nat) -> Seq<u8>
    decreases v,
{
    if v < 128 {
        seq![v as u8]
    } else {
        seq![(v % 128 + 128) as u8] + spec_encode_uint(v / 128)
    }
}

/// The `data` encoding: the length as a `uint`, then the bytes.
pub open spec fn spec_encode_data(d: Seq<u8>) -> Seq<u8> {
    spec_encode_uint(d.len()) + d
}

/// Reads BARE values from a byte buffer, front to back.
pub struct BareDecoder {
    buf: Vec<u8>,
    pos: usize,
}

impl BareDecoder {
    /// The bytes being decoded.
    pub closed spec fn spec_bytes(&self) -> Seq<u8> {
        self.buf@
    }

    /// How many bytes have been consumed.
    pub closed spec fn spec_pos(&self) -> nat {
        self.pos as nat
    }

    /// The bytes not consumed yet.
    pub open spec fn spec_rest(&self) -> Seq<u8> {
        self.spec_bytes().subrange(self.spec_pos() as int, self.spec_bytes().len() as int)
    }

    /// The position lies inside the bytes.
    pub open spec fn wf(&self) -> bool {
        self.spec_pos() <= self.spec_bytes().len()
    }

    pub fn new(bytes: &[u8]) -> (d: BareDecoder)
        ensures
            d.wf(),
            d.spec_bytes() == bytes@,
            d.spec_pos() == 0,
    {
        BareDecoder { buf: slice_to_vec(bytes), pos: 0 }
    }

    /// How many bytes have been consumed.
    pub fn position(&self) -> (p: usize)
        ensures
            p == self.spec_pos(),
    {
        self.pos
    }

    /// How many bytes are left.
    pub fn remaining(&self) -> (n: usize)
        requires
            self.wf(),
        ensures
            n == self.spec_rest().len(),
    {
        self.buf.len() - self.pos
    }

    /// Takes the next `len` bytes.
    fn take(&mut self, len: usize) -> (r: Result<Vec<u8>, BareError>)
        requires
            old(self).wf(),
        ensures
            final(self).wf(),
            final(self).spec_bytes() == old(self).spec_bytes(),
            len <= old(self).spec_rest().len() ==> r == Ok::<Vec<u8>, BareError>(r->Ok_0) && r->Ok_0@
                == old(self).spec_rest().take(len as int) && final(self).spec_pos() == old(
                self,
            ).spec_pos() + len,
            len > old(self).spec_rest().len() ==> r == Err::<Vec<u8>, BareError>(
                BareError::UnexpectedEof,
            ) && final(self).spec_pos() == old(self).spec_pos(),
    {
        if len > self.buf.len() - self.pos {
            return Err(BareError::UnexpectedEof);
        }
        let bytes = slice_to_vec(slice_subrange(self.buf.as_slice(), self.pos, self.pos + len));
        proof {
            assert(bytes@ =~= self.spec_rest().take(len as int));
        }
        self.pos = self.pos + len;
        Ok(bytes)
    }

    /// Reads a variable length unsigned integer.
    pub fn read_uint(&mut self) -> (r: Result<u64, BareError>)
        requires
            old(self).wf(),
        ensures
            final(self).wf(),
            final(self).spec_bytes() == old(self).spec_bytes(),
            r is Ok <==> spec_decode_uint(old(self).spec_rest()) is Ok,
            r matches Ok(v) ==> spec_decode_uint(old(self).spec_rest()) matches Ok((w, n)) && v
                == w && final(self).spec_pos() == old(self).spec_pos() + n,
            r matches Err(e) ==> spec_decode_uint(old(self).spec_rest()) == Err::<
                (u64, nat),
                BareError,
            >(e) && final(self).spec_pos() == old(self).spec_pos(),
    {
        let ghost rest = self.spec_rest();
        let start = self.pos;
        let mut acc: u64 = 0;
        let mut mul: u64 = 1;
        let mut i: usize = 0;
        loop
            invariant
                self.wf(),
                self.buf@ == old(self).buf@,
                start == old(self).pos,
                self.pos == start,
                rest == old(self).spec_rest(),
                i < 10,
                mul == pow128(i as nat),
                0 <= acc < mul,
                uint_scan(rest, i as nat, acc as int) == spec_decode_uint(rest),
            decreases 10 - i,
        {
            proof {
                lemma_pow128_bounds(i as nat);
            }
            if i >= self.buf.len() - start {
                return Err(BareError::UnexpectedEof);
            }
            let b = self.buf[start + i];
            proof {
                assert(rest[i as int] == b);
            }
            if i == 9 && b > 1 {
                return Err(BareError::InvalidUint);
            }
            if b < 0x80 {
                proof {
                    lemma_uint_step_fits(acc as int, b as int, i as nat);
                }
                self.pos = start + i + 1;
                return Ok(acc + (b as u64) * mul);
            }
            proof {
                lemma_uint_step_fits(acc as int, (b % 128) as int, i as nat);
            }
            acc = acc + ((b % 128) as u64) * mul;
            i = i + 1;
            proof {
                lemma_pow128_bounds(i as nat);
                assert(pow128(i as nat) == 128 * pow128((i - 1) as nat));
            }
            mul = mul * 128;
        }
    }

    pub fn read_u8(&mut self) -> (r: Result<u8, BareError>)
        requires
            old(self).wf(),
        ensures
            final(self).wf(),
            final(self).spec_bytes() == old(self).spec_bytes(),
            old(self).spec_rest().len() >= 1 ==> r == Ok::<u8, BareError>(old(self).spec_rest()[0])
                && final(self).spec_pos() == old(self).spec_pos() + 1,
            old(self).spec_rest().len() < 1 ==> r == Err::<u8, BareError>(BareError::UnexpectedEof)
                && final(self).spec_pos() == old(self).spec_pos(),
    {
        if self.pos >= self.buf.len() {
            return Err(BareError::UnexpectedEof);
        }
        let b = self.buf[self.pos];
        self.pos = self.pos + 1;
        Ok(b)
    }

    pub fn read_u16(&mut self) -> (r: Result<u16, BareError>)
        requires
            old(self).wf(),
        ensures
            final(self).wf(),
            final(self).spec_bytes() == old(self).spec_bytes(),
            old(self).spec_rest().len() >= 2 ==> r == Ok::<u16, BareError>(
                spec_u16_from_le_bytes(old(self).spec_rest().take(2)),
            ) && final(self).spec_pos() == old(self).spec_pos() + 2,
            old(self).spec_rest().len() < 2 ==> r == Err::<u16, BareError>(BareError::UnexpectedEof)
                && final(self).spec_pos() == old(self).spec_pos(),
    {
        let bytes = self.take(2)?;
        Ok(u16_from_le_bytes(bytes.as_slice()))
    }

    pub fn read_u32(&mut self) -> (r: Result<u32, BareError>)
        requires
            old(self).wf(),
        ensures
            final(self).wf(),
            final(self).spec_bytes() == old(self).spec_bytes(),
            old(self).spec_rest().len() >= 4 ==> r == Ok::<u32, BareError>(
                spec_u32_from_le_bytes(old(self).spec_rest().take(4)),
            ) && final(self).spec_pos() == old(self).spec_pos() + 4,
            old(self).spec_rest().len() < 4 ==> r == Err::<u32, BareError>(BareError::UnexpectedEof)
                && final(self).spec_pos() == old(self).spec_pos(),
    {
        let bytes = self.take(4)?;
        Ok(u32_from_le_bytes(bytes.as_slice()))
    }

    pub fn read_u64(&mut self) -> (r: Result<u64, BareError>)
        requires
            old(self).wf(),
        ensures
            final(self).wf(),
            final(self).spec_bytes() == old(self).spec_bytes(),
            old(self).spec_rest().len() >= 8 ==> r == Ok::<u64, BareError>(
                spec_u64_from_le_bytes(old(self).spec_rest().take(8)),
            ) && final(self).spec_pos() == old(self).spec_pos() + 8,
            old(self).spec_rest().len() < 8 ==> r == Err::<u64, BareError>(BareError::UnexpectedEof)
                && final(self).spec_pos() == old(self).spec_pos(),
    {
        let bytes = self.take(8)?;
        Ok(u64_from_le_bytes(bytes.as_slice()))
    }

    /// Reads a `uint` length and then that many bytes.
    pub fn read_data(&mut self) -> (r: Result<Vec<u8>, BareError>)
        requires
            old(self).wf(),
        ensures
            final(self).wf(),
            final(self).spec_bytes() == old(self).spec_bytes(),
            r matches Ok(d) ==> spec_decode_uint(old(self).spec_rest()) matches Ok((len, n)) && d@
                == old(self).spec_rest().subrange(n as int, n + len) && final(self).spec_pos()
                == old(self).spec_pos() + n + len,
            spec_decode_uint(old(self).spec_rest()) matches Ok((len, n)) ==> (r is Ok <==> n + len
                <= old(self).spec_rest().len()),
            spec_decode_uint(old(self).spec_rest()) matches Ok((len, n)) ==> (n + len > old(
                self,
            ).spec_rest().len() ==> r == Err::<Vec<u8>, BareError>(BareError::UnexpectedEof)),
            spec_decode_uint(old(self).spec_rest()) matches Err(e) ==> r == Err::<Vec<u8>, BareError>(
                e,
            ),
    {
        let ghost rest = self.spec_rest();
        let len = self.read_uint()?;
        proof {
            let n = (self.spec_pos() - old(self).spec_pos()) as int;
            assert(self.spec_rest() =~= rest.subrange(n, rest.len() as int));
        }
        if len > (self.buf.len() - self.pos) as u64 {
            return Err(BareError::UnexpectedEof);
        }
        let d = self.take(len as usize)?;
        proof {
            let n = (old(self).spec_pos() + (self.spec_pos() - old(self).spec_pos() - len)) as int;
            assert(d@ =~= rest.subrange(
                (self.spec_pos() - old(self).spec_pos() - len) as int,
                (self.spec_pos() - old(self).spec_pos()) as int,
            ));
        }
        Ok(d)
    }

    /// Reads exactly `len` bytes.
    pub fn read_data_exact(&mut self, len: usize) -> (r: Result<Vec<u8>, BareError>)
        requires
            old(self).wf(),
        ensures
            final(self).wf(),
            final(self).spec_bytes() == old(self).spec_bytes(),
            len <= old(self).spec_rest().len() ==> (r matches Ok(d) && d@ == old(
                self,
            ).spec_rest().take(len as int) && final(self).spec_pos() == old(self).spec_pos() + len),
            len > old(self).spec_rest().len() ==> r == Err::<Vec<u8>, BareError>(
                BareError::UnexpectedEof,
            ),
    {
        self.take(len)
    }

    /// Reads `count` little endian `u32` values.
    pub fn read_list_u32_exact(&mut self, count: usize) -> (r: Result<Vec<u32>, BareError>)
        requires
            old(self).wf(),
        ensures
            final(self).wf(),
            final(self).spec_bytes() == old(self).spec_bytes(),
            4 * count <= old(self).spec_rest().len() ==> (r matches Ok(v) && v@.len() == count
                && (forall|k: int|
                0 <= k < count ==> #[trigger] v@[k] == spec_u32_from_le_bytes(
                    old(self).spec_rest().subrange(4 * k, 4 * k + 4),
                )) && final(self).spec_pos() == old(self).spec_pos() + 4 * count),
            4 * count > old(self).spec_rest().len() ==> r == Err::<Vec<u32>, BareError>(
                BareError::UnexpectedEof,
            ),
    {
        let ghost rest = self.spec_rest();
        if count > (self.buf.len() - self.pos) / 4 {
            return Err(BareError::UnexpectedEof);
        }
        let mut v: Vec<u32> = Vec::new();
        let mut k: usize = 0;
        while k < count
            invariant
                self.wf(),
                self.buf@ == old(self).buf@,
                self.pos == old(self).pos + 4 * k,
                rest == old(self).spec_rest(),
                k <= count,
                4 * count <= rest.len(),
                v@.len() == k,
                forall|j: int|
                    0 <= j < k ==> #[trigger] v@[j] == spec_u32_from_le_bytes(
                        rest.subrange(4 * j, 4 * j + 4),
                    ),
            decreases count - k,
        {
            let ghost before = self.spec_rest();
            let x = self.read_u32();
            proof {
                assert(before =~= rest.subrange(4 * k, rest.len() as int));
                assert(before.take(4) =~= rest.subrange(4 * k, 4 * k + 4));
            }
            match x {
                Ok(x) => {
                    v.push(x);
                },
                Err(_) => {
                    return Err(BareError::UnexpectedEof);
                },
            }
            k = k + 1;
        }
        Ok(v)
    }
}

/// Appends BARE values to a byte buffer.
pub struct BareEncoder {
    writer: Vec<u8>,
}

impl BareEncoder {
    /// Everything written so far.
    pub closed spec fn spec_bytes(&self) -> Seq<u8> {
        self.writer@
    }

    /// An encoder that appends to `writer`.
    pub fn new(writer: Vec<u8>) -> (e: BareEncoder)
        ensures
            e.spec_bytes() == writer@,
    {
        BareEncoder { writer }
    }

    pub fn len(&self) -> (n: usize)
        ensures
            n == self.spec_bytes().len(),
    {
        self.writer.len()
    }

    pub fn into_inner(self) -> (w: Vec<u8>)
        ensures
            w@ == self.spec_bytes(),
    {
        self.writer
    }

    pub fn as_ref(&self) -> (w: &Vec<u8>)
        ensures
            w@ == self.spec_bytes(),
    {
        &self.writer
    }

    pub fn write_uint(&mut self, value: u64)
        ensures
            final(self).spec_bytes() == old(self).spec_bytes() + spec_encode_uint(value as nat),
    {
        let mut x = value;
        while x >= 0x80
            invariant
                self.writer@ + spec_encode_uint(x as nat) == old(self).writer@ + spec_encode_uint(
                    value as nat,
                ),
            decreases x,
        {
            let ghost w = self.writer@;
            let b: u8 = (x % 128) as u8 + 128;
            self.writer.push(b);
            proof {
                assert(spec_encode_uint(x as nat) == seq![b] + spec_encode_uint((x / 128) as nat));
                assert(w + (seq![b] + spec_encode_uint((x / 128) as nat)) =~= w.push(b)
                    + spec_encode_uint((x / 128) as nat));
            }
            x = x / 128;
        }
        let ghost w = self.writer@;
        self.writer.push(x as u8);
        proof {
            assert(w + spec_encode_uint(x as nat) =~= w.push(x as u8));
        }
    }

    pub fn write_u8(&mut self, value: u8)
        ensures
            final(self).spec_bytes() == old(self).spec_bytes().push(value),
    {
        self.writer.push(value);
    }

    fn write_all(&mut self, bytes: &[u8])
        ensures
            final(self).spec_bytes() == old(self).spec_bytes() + bytes@,
    {
        let mut i: usize = 0;
        while i < bytes.len()
            invariant
                0 <= i <= bytes@.len(),
                self.writer@ == old(self).writer@ + bytes@.take(i as int),
            decreases bytes@.len() - i,
        {
            self.writer.push(bytes[i]);
            proof {
                assert(bytes@.take(i + 1) =~= bytes@.take(i as int).push(bytes@[i as int]));
            }
            i = i + 1;
        }
        proof {
            assert(bytes@.take(bytes@.len() as int) =~= bytes@);
        }
    }

    pub fn write_u16(&mut self, value: u16)
        ensures
            final(self).spec_bytes() == old(self).spec_bytes() + spec_u16_to_le_bytes(value),
    {
        let bytes = u16_to_le_bytes(value);
        self.write_all(bytes.as_slice());
    }

    pub fn write_u32(&mut self, value: u32)
        ensures
            final(self).spec_bytes() == old(self).spec_bytes() + spec_u32_to_le_bytes(value),
    {
        let bytes = u32_to_le_bytes(value);
        self.write_all(bytes.as_slice());
    }

    pub fn write_u64(&mut self, value: u64)
        ensures
            final(self).spec_bytes() == old(self).spec_bytes() + spec_u64_to_le_bytes(value),
    {
        let bytes = u64_to_le_bytes(value);
        self.write_all(bytes.as_slice());
    }

    /// Writes the length of `buf` as a `uint`, then the bytes.
    pub fn write_data(&mut self, buf: &[u8])
        ensures
            final(self).spec_bytes() == old(self).spec_bytes() + spec_encode_data(buf@),
    {
        self.write_uint(buf.len() as u64);
        self.write_all(buf);
        proof {
            assert(old(self).spec_bytes() + spec_encode_uint(buf@.len()) + buf@ =~= old(
                self,
            ).spec_bytes() + spec_encode_data(buf@));
        }
    }

    /// Writes the bytes with no length in front.
    pub fn write_data_exact(&mut self, buf: &[u8])
        ensures
            final(self).spec_bytes() == old(self).spec_bytes() + buf@,
    {
        self.write_all(buf);
    }
}

pub proof fn lemma_pow128_bounds(i: nat)
    ensures
        pow128(i) >= 1,
        i <= 9 ==> pow128(i) <= 0x8000000000000000,
        i <= 8 ==> pow128(i) <= 0x100000000000000,
        i == 9 ==> pow128(i) == 0x8000000000000000,
    decreases i,
{
    if i > 0 {
        lemma_pow128_bounds((i - 1) as nat);
    }
    if i <= 9 {
        reveal_with_fuel(pow128, 10);
        assert(pow128(8) == 0x100000000000000);
        assert(pow128(9) == 0x8000000000000000);
        if i <= 8 {
            lemma_pow128_monotonic(i, 8);
        }
        lemma_pow128_monotonic(i, 9);
    }
}

proof fn lemma_pow128_monotonic(i: nat, j: nat)
    requires
        i <= j,
    ensures
        pow128(i) <= pow128(j),
    decreases j,
{
    if i < j {
        lemma_pow128_monotonic(i, (j - 1) as nat);
        lemma_pow128_positive((j - 1) as nat);
    }
}

proof fn lemma_pow128_positive(i: nat)
    ensures
        pow128(i) >= 1,
    decreases i,
{
    if i > 0 {
        lemma_pow128_positive((i - 1) as nat);
    }
}

/// Adding one more group of seven bits keeps the value in range.
pub proof fn lemma_uint_step_fits(acc: int, b: int, i: nat)
    requires
        i < 10,
        0 <= acc < pow128(i),
        0 <= b < 128,
        i == 9 ==> b <= 1,
    ensures
        0 <= acc + b * pow128(i) < pow128(i + 1),
        acc + b * pow128(i) <= u64::MAX,
{
    lemma_pow128_bounds(i);
    assert(pow128(i + 1) == 128 * pow128(i));
    assert(b * pow128(i) <= 127 * pow128(i)) by (nonlinear_arith)
        requires
            0 <= b < 128,
            pow128(i) >= 1,
    ;
    if i == 9 {
        assert(b * pow128(i) <= pow128(i)) by (nonlinear_arith)
            requires
                0 <= b <= 1,
                pow128(i) >= 1,
        ;
    }
}


/// Scanning the encoding of `w`, placed at byte `i` after a prefix worth
/// `acc`, reads `acc + w * 128^i` and stops right after the encoding.
proof fn lemma_scan_encoded(bytes: Seq<u8>, i: nat, acc: int, w: nat)
    requires
        i < 10,
        0 <= acc < pow128(i),
        acc + w * pow128(i) <= u64::MAX,
        i + spec_encode_uint(w).len() <= bytes.len(),
        bytes.subrange(i as int, (i + spec_encode_uint(w).len()) as int) == spec_encode_uint(w),
    ensures
        uint_scan(bytes, i, acc) == Ok::<(u64, nat), BareError>(
            ((acc + w * pow128(i)) as u64, i + spec_encode_uint(w).len()),
        ),
    decreases w,
{
    lemma_pow128_bounds(i);
    let e = spec_encode_uint(w);
    assert(bytes[i as int] == e[0]);
    if w < 128 {
        if i == 9 {
            assert(w <= 1) by (nonlinear_arith)
                requires
                    acc + w * pow128(i) <= u64::MAX,
                    pow128(i) == 0x8000000000000000,
                    acc >= 0,
            {
                if w >= 2 {
                    assert(w * pow128(i) >= 2 * pow128(i));
                }
            }
        }
    } else {
        let q = w / 128;
        let r = w % 128;
        if i == 9 {
            assert(false) by (nonlinear_arith)
                requires
                    acc + w * pow128(i) <= u64::MAX,
                    pow128(i) == 0x8000000000000000,
                    acc >= 0,
                    w >= 128,
            {
                assert(w * pow128(i) >= 128 * pow128(i));
            }
        }
        assert(pow128(i + 1) == 128 * pow128(i));
        assert(e == seq![(r + 128) as u8] + spec_encode_uint(q));
        let qe = spec_encode_uint(q);
        assert(bytes.subrange((i + 1) as int, (i + 1 + qe.len()) as int) =~= qe) by {
            assert forall|k: int| 0 <= k < qe.len() implies bytes.subrange(
                (i + 1) as int,
                (i + 1 + qe.len()) as int,
            )[k] == qe[k] by {
                assert(bytes.subrange(i as int, (i + e.len()) as int)[k + 1] == e[k + 1]);
            }
        }
        assert(acc + r * pow128(i) + q * pow128(i + 1) == acc + w * pow128(i)) by (nonlinear_arith)
            requires
                w == 128 * q + r,
                pow128(i + 1) == 128 * pow128(i),
        ;
        assert(0 <= acc + r * pow128(i) < pow128(i + 1)) by (nonlinear_arith)
            requires
                0 <= acc < pow128(i),
                0 <= r < 128,
                pow128(i + 1) == 128 * pow128(i),
        ;
        assert(q * pow128(i + 1) >= 0) by (nonlinear_arith)
            requires
                q >= 0,
                pow128(i + 1) >= 1,
        ;
        lemma_scan_encoded(bytes, i + 1, acc + r * pow128(i), q);
    }
}

/// Decoding what `write_uint` wrote gives back the value, and reads exactly
/// the encoding, whatever follows it.
pub proof fn lemma_uint_roundtrip(v: u64, rest: Seq<u8>)
    ensures
        spec_decode_uint(spec_encode_uint(v as nat) + rest) == Ok::<(u64, nat), BareError>(
            (v, spec_encode_uint(v as nat).len()),
        ),
{
    let bytes = spec_encode_uint(v as nat) + rest;
    assert(bytes.subrange(0, spec_encode_uint(v as nat).len() as int) =~= spec_encode_uint(
        v as nat,
    ));
    lemma_scan_encoded(bytes, 0, 0, v as nat);
}

/// Decoding what `write_data` wrote gives back the length and the bytes.
pub proof fn lemma_data_roundtrip(d: Seq<u8>, rest: Seq<u8>)
    requires
        d.len() <= u64::MAX,
    ensures
        spec_decode_uint(spec_encode_data(d) + rest) == Ok::<(u64, nat), BareError>(
            (d.len() as u64, spec_encode_uint(d.len()).len()),
        ),
        (spec_encode_data(d) + rest).subrange(
            spec_encode_uint(d.len()).len() as int,
            (spec_encode_uint(d.len()).len() + d.len()) as int,
        ) == d,
{
    let n = spec_encode_uint(d.len());
    assert(spec_encode_data(d) + rest =~= n + (d + rest));
    lemma_uint_roundtrip(d.len() as u64, d + rest);
    assert((spec_encode_data(d) + rest).subrange(n.len() as int, (n.len() + d.len()) as int) =~= d);
}

/// Decoding what `write_u16`, `write_u32` and `write_u64` wrote gives back
/// the value.
pub proof fn lemma_fixed_roundtrip(a: u16, b: u32, c: u64, rest: Seq<u8>)
    ensures
        spec_u16_from_le_bytes((spec_u16_to_le_bytes(a) + rest).take(2)) == a,
        spec_u32_from_le_bytes((spec_u32_to_le_bytes(b) + rest).take(4)) == b,
        spec_u64_from_le_bytes((spec_u64_to_le_bytes(c) + rest).take(8)) == c,
{
    lemma_auto_spec_u16_to_from_le_bytes();
    lemma_auto_spec_u32_to_from_le_bytes();
    lemma_auto_spec_u64_to_from_le_bytes();
    assert((spec_u16_to_le_bytes(a) + rest).take(2) =~= spec_u16_to_le_bytes(a));
    assert((spec_u32_to_le_bytes(b) + rest).take(4) =~= spec_u32_to_le_bytes(b));
    assert((spec_u64_to_le_bytes(c) + rest).take(8) =~= spec_u64_to_le_bytes(c));
}

} // verus!
