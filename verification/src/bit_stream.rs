//! Bit-level stream codec: arbitrary-width bit reads and writes over a
//! growable byte buffer.
//!
//! Bits are packed within a byte starting from the least significant
//! position: the first bit written lands in the lowest free bit of the
//! current byte. The mathematical model of a stream is the sequence of its
//! bytes together with a cursor measured in bits ([`BitStream::pos`]); the
//! value read or written by an `n`-bit operation is [`bits_val`] over the
//! `n` bits starting at the cursor, little-endian.

use vstd::prelude::*;
use vstd::arithmetic::power2::{pow2, lemma2_to64, lemma_pow2_adds, lemma_pow2_pos};
use vstd::arithmetic::div_mod::{lemma_fundamental_div_mod, lemma_fundamental_div_mod_converse};
use vstd::utf8::{valid_utf8, decode_utf8, encode_utf8};
use vstd::string::StrSliceExecFns;
use crate::error::CodecError;

verus! {

/// Bit `i` of the byte sequence `data`, counting bits from the least
/// significant bit of byte 0 upward.
pub open spec fn stream_bit(data: Seq<u8>, i: int) -> bool
    recommends
        0 <= i < 8 * data.len(),
{
    (data[i / 8] >> ((i % 8) as u8)) & 1 == 1
}

/// The unsigned value of the `n` bits of `data` starting at bit position
/// `pos`, little-endian (the bit at `pos` is the least significant).
pub open spec fn bits_val(data: Seq<u8>, pos: int, n: nat) -> nat
    decreases n,
{
    if n == 0 {
        0
    } else {
        (if stream_bit(data, pos) {
            1nat
        } else {
            0nat
        }) + 2 * bits_val(data, pos + 1, (n - 1) as nat)
    }
}

/// The `count` bytes held back-to-back in `data` starting at bit `pos`.
pub open spec fn bytes_at(data: Seq<u8>, pos: int, count: nat) -> Seq<u8> {
    Seq::new(count, |i: int| bits_val(data, pos + 8 * i, 8) as u8)
}

/// The bytes of a length-prefixed string held at bit `pos`: one length
/// byte, then that many raw bytes.
pub open spec fn str_body(data: Seq<u8>, pos: int) -> Seq<u8> {
    bytes_at(data, pos + 8, bits_val(data, pos, 8))
}

/// Relies on `String::from_utf8`: it succeeds exactly on valid UTF-8 input
/// and returns the string whose bytes are that input.
#[verifier::external_body]
fn vec_to_string(bytes: Vec<u8>) -> (r: Result<String, CodecError>)
    ensures
        (r is Ok) == valid_utf8(bytes@),
        r matches Ok(s) ==> s@ == decode_utf8(bytes@) && encode_utf8(s@) == bytes@,
        r matches Err(e) ==> e == CodecError::Utf8,
{
    match String::from_utf8(bytes) {
        Ok(s) => Ok(s),
        Err(_) => Err(CodecError::Utf8),
    }
}

/// Division and remainder of a bit position by the byte width.
proof fn lemma_bit_index(k: int, j: int)
    requires
        0 <= j < 8,
        0 <= k,
    ensures
        (8 * k + j) / 8 == k,
        (8 * k + j) % 8 == j,
{
    lemma_fundamental_div_mod_converse(8 * k + j, 8, k, j);
}

/// `bits_val` only looks at the bits in `[pos, pos + n)`.
pub proof fn lemma_bits_val_agree(d1: Seq<u8>, d2: Seq<u8>, pos: int, n: nat)
    requires
        forall|i: int| pos <= i < pos + n ==> stream_bit(d1, i) == stream_bit(d2, i),
    ensures
        bits_val(d1, pos, n) == bits_val(d2, pos, n),
    decreases n,
{
    if n > 0 {
        lemma_bits_val_agree(d1, d2, pos + 1, (n - 1) as nat);
    }
}

/// An `n`-bit value is below `pow2(n)`.
pub proof fn lemma_bits_val_bound(d: Seq<u8>, pos: int, n: nat)
    ensures
        bits_val(d, pos, n) < pow2(n),
    decreases n,
{
    if n == 0 {
        lemma2_to64();
    } else {
        lemma_bits_val_bound(d, pos + 1, (n - 1) as nat);
        lemma_pow2_adds(1, (n - 1) as nat);
        lemma2_to64();
    }
}

/// Splitting a bit range: the low `m` bits plus the remaining `n - m` bits
/// scaled by `pow2(m)`.
pub proof fn lemma_bits_val_split(d: Seq<u8>, pos: int, m: nat, n: nat)
    requires
        m <= n,
    ensures
        bits_val(d, pos, n) == bits_val(d, pos, m) + pow2(m) * bits_val(d, pos + m, (n - m) as nat),
    decreases m,
{
    if m == 0 {
        lemma2_to64();
        assert(pow2(0) == 1);
        assert(bits_val(d, pos, m) == 0);
        assert(pos + m == pos && (n - m) as nat == n);
        let v = bits_val(d, pos, n);
        assert(1 * v == v) by (nonlinear_arith);
    } else {
        lemma_bits_val_split(d, pos + 1, (m - 1) as nat, (n - 1) as nat);
        lemma_pow2_adds(1, (m - 1) as nat);
        lemma2_to64();
        let b: nat = if stream_bit(d, pos) {
            1nat
        } else {
            0nat
        };
        let vlo = bits_val(d, pos + 1, (m - 1) as nat);
        let vhi = bits_val(d, pos + m, (n - m) as nat);
        let pm1 = pow2((m - 1) as nat);
        assert(pow2(m) == 2 * pm1);
        assert(bits_val(d, pos, n) == b + 2 * bits_val(d, pos + 1, (n - 1) as nat));
        assert(bits_val(d, pos, m) == b + 2 * vlo);
        assert(bits_val(d, pos + 1, (n - 1) as nat) == vlo + pm1 * vhi);
        assert(2 * (vlo + pm1 * vhi) == 2 * vlo + (2 * pm1) * vhi) by (nonlinear_arith);
        assert(bits_val(d, pos, n) == b + 2 * vlo + (2 * pm1) * vhi);
        assert(pow2(m) * vhi == (2 * pm1) * vhi);
        assert(bits_val(d, pos, n) == bits_val(d, pos, m) + pow2(m) * vhi);
    }
}

/// `pow2` agrees with a left shift of 1 for small exponents.
pub proof fn lemma_pow2_shift8(m: u8)
    requires
        m < 8,
    ensures
        pow2(m as nat) == (1u8 << m) as nat,
{
    lemma2_to64();
    assert(1u8 << 0 == 1 && 1u8 << 1 == 2 && 1u8 << 2 == 4 && 1u8 << 3 == 8 && 1u8 << 4 == 16
        && 1u8 << 5 == 32 && 1u8 << 6 == 64 && 1u8 << 7 == 128) by (bit_vector);
}

/// The value of up to one byte's worth of bits, read out of byte `k` of
/// `data` starting at bit `j`, equals a shift-and-mask of that byte.
pub proof fn lemma_bits_val_byte(d: Seq<u8>, k: int, j: u8, n: u8)
    requires
        0 <= k < d.len(),
        j < 8,
        1 <= n,
        j + n <= 8,
    ensures
        bits_val(d, 8 * k + j, n as nat) == ((d[k] >> j) & (0xFFu8 >> ((8 - n) as u8))) as nat,
    decreases n,
{
    let b = d[k];
    lemma_bit_index(k, j as int);
    assert(stream_bit(d, 8 * k + j) == ((b >> j) & 1 == 1));
    if n == 1 {
        assert(bits_val(d, 8 * k + j + 1, 0) == 0);
        assert(((b >> j) & (0xFFu8 >> 7)) == ((b >> j) & 1)) by (bit_vector);
        assert((b >> j) & 1 == 0 || (b >> j) & 1 == 1) by (bit_vector);
    } else {
        lemma_bits_val_byte(d, k, (j + 1) as u8, (n - 1) as u8);
        assert(8 * k + (j + 1) == (8 * k + j) + 1);
        let lo: u8 = (b >> j) & 1;
        assert(((b >> j) & (0xFFu8 >> ((8 - n) as u8))) == ((b >> j) & 1) + 2 * ((b >> ((j
            + 1) as u8)) & (0xFFu8 >> ((8 - (n - 1)) as u8)))) by (bit_vector)
            requires
                j < 8,
                2 <= n,
                n <= 8,
                j + n <= 8,
        ;
        assert((b >> j) & 1 == 0 || (b >> j) & 1 == 1) by (bit_vector);
    }
}

/// Bytes are their bits: the eight bits starting at a byte boundary read
/// back the byte itself.
pub proof fn lemma_byte_extract(d: Seq<u8>, k: int)
    requires
        0 <= k < d.len(),
    ensures
        bits_val(d, 8 * k, 8) == d[k],
{
    lemma_bits_val_byte(d, k, 0, 8);
    let b = d[k];
    assert((b >> 0u8) & (0xFFu8 >> 0u8) == b) by (bit_vector);
}

/// One bit of a value, read back from the bits a stream holds: bit `i` of
/// the `n`-bit group at `pos` is bit `i` of its value.
pub proof fn lemma_bits_val_to_bits(d: Seq<u8>, p: int, n: nat, i: int)
    requires
        0 <= i < n,
    ensures
        stream_bit(d, p + i) == ((bits_val(d, p, n) / pow2(i as nat)) % 2 == 1),
    decreases i,
{
    let v = bits_val(d, p, n);
    let b0: nat = if stream_bit(d, p) {
        1nat
    } else {
        0nat
    };
    let rest = bits_val(d, p + 1, (n - 1) as nat);
    assert(v == b0 + 2 * rest);
    lemma2_to64();
    if i == 0 {
        lemma_fundamental_div_mod_converse(v as int, 2, rest as int, b0 as int);
        assert(pow2(0) == 1);
        assert(v as int / 1 == v);
    } else {
        lemma_bits_val_to_bits(d, p + 1, (n - 1) as nat, i - 1);
        lemma_fundamental_div_mod_converse(v as int, 2, rest as int, b0 as int);
        lemma_pow2_adds(1, (i - 1) as nat);
        lemma_pow2_pos((i - 1) as nat);
        vstd::arithmetic::div_mod::lemma_div_denominator(
            v as int,
            2,
            pow2((i - 1) as nat) as int,
        );
        assert((p + 1) + (i - 1) == p + i);
    }
}

/// Past the write frontier every bit of the buffer is zero.
pub proof fn lemma_frontier_tail_zero(bs: BitStream)
    requires
        bs.write_frontier(),
    ensures
        forall|q: int|
            bs.pos() <= q < 8 * bs.bytes_view().len() ==> !stream_bit(bs.bytes_view(), q),
{
    let d = bs.bytes_view();
    let off = bs.bit_offset;
    assert forall|q: int| bs.pos() <= q < 8 * d.len() implies !stream_bit(d, q) by {
        lemma_fundamental_div_mod(q, 8);
        let k = q / 8;
        let j = q % 8;
        assert(k == d.len() - 1 && off <= j < 8);
        let b = d.last();
        let jj = j as u8;
        assert((b >> off == 0 && off <= jj && jj < 8) ==> ((b >> jj) & 1 == 0)) by (bit_vector);
    }
}

/// Bits strictly below position `p == 8 * k + off` are unchanged when only
/// byte `k` is rewritten without touching its bits below `off`, and bytes
/// before `k` are kept.
proof fn lemma_prefix_bits(dnew: Seq<u8>, dold: Seq<u8>, k: int, off: u8, p: int)
    requires
        0 <= k,
        off < 8,
        p == 8 * k + off,
        p <= 8 * dold.len(),
        dold.len() <= k + 1,
        k < dnew.len(),
        forall|q: int| 0 <= q < dold.len() && q < k ==> dnew[q] == dold[q],
        forall|j: u8| j < off ==> ((#[trigger] (dnew[k] >> j)) & 1) == ((dold[k] >> j) & 1),
    ensures
        forall|i: int| 0 <= i < p ==> stream_bit(dnew, i) == stream_bit(dold, i),
{
    assert forall|i: int| 0 <= i < p implies stream_bit(dnew, i) == stream_bit(dold, i) by {
        lemma_fundamental_div_mod(i, 8);
        let q = i / 8;
        let j = i % 8;
        assert(i == 8 * q + j && 0 <= j < 8);
        if q < k {
            assert(dnew[q] == dold[q]);
        } else {
            assert(q == k && j < off);
            assert(((dnew[k] >> (j as u8)) & 1) == ((dold[k] >> (j as u8)) & 1));
        }
    }
}

/// At the write frontier the cursor sits at most one partial byte before
/// the end of the buffer.
pub broadcast proof fn lemma_frontier_bounds(bs: BitStream)
    ensures
        #[trigger] bs.write_frontier() ==> bs.pos() <= 8 * bs.bytes_view().len() < bs.pos() + 8,
{
}

/// A stream's cursor never sits at a negative bit position.
pub broadcast proof fn lemma_pos_nonneg(bs: BitStream)
    ensures
        #[trigger] bs.pos() >= 0,
{
}

/// Cursor-tracked reader/writer for sub-byte-width values over a byte
/// buffer.
pub struct BitStream {
    data: Vec<u8>,
    bit_offset: u8,
    byte_offset: usize,
}

impl BitStream {
    /// The bytes currently held by the stream.
    pub closed spec fn bytes_view(self) -> Seq<u8> {
        self.data@
    }

    /// The cursor, in bits from the start of the buffer.
    pub closed spec fn pos(self) -> int {
        8 * self.byte_offset + self.bit_offset
    }

    /// The buffer length, in bits.
    pub open spec fn bit_len(self) -> int {
        8 * self.bytes_view().len() as int
    }

    /// Basic well-formedness: the bit offset stays inside one byte.
    pub closed spec fn inv(self) -> bool {
        self.bit_offset < 8
    }

    /// The cursor sits at the growth frontier and every bit at or past it in
    /// the buffer is zero. Every stream built empty for writing satisfies
    /// this, and every successful write preserves it.
    pub closed spec fn write_frontier(self) -> bool {
        &&& self.inv()
        &&& (self.byte_offset == self.data@.len() && self.bit_offset == 0) || (self.data@.len()
            >= 1 && self.byte_offset == self.data@.len() - 1 && self.bit_offset > 0 && (
        self.data@.last() >> self.bit_offset) == 0)
    }

    /// Constructs a stream over `data` with the cursor at the start.
    pub fn new(data: Vec<u8>) -> (r: BitStream)
        ensures
            r.bytes_view() == data@,
            r.pos() == 0,
            r.inv(),
            data@.len() == 0 ==> r.write_frontier(),
    {
        BitStream { data, bit_offset: 0, byte_offset: 0 }
    }

    /// True when the cursor's byte index has reached the end of the buffer.
    pub fn eof(&self) -> (r: bool)
        requires
            self.inv(),
        ensures
            r == (self.pos() >= self.bit_len()),
    {
        self.byte_offset >= self.data.len()
    }

    /// Consumes the stream and hands back its buffer.
    pub fn bytes(self) -> (r: Vec<u8>)
        ensures
            r@ == self.bytes_view(),
    {
        self.data
    }

    /// Moves the cursor to the given byte and bit offset.
    pub fn seek(&mut self, byte_offset: usize, bit_offset: u8)
        requires
            bit_offset < 8,
        ensures
            final(self).bytes_view() == old(self).bytes_view(),
            final(self).pos() == 8 * byte_offset + bit_offset,
            final(self).inv(),
    {
        self.byte_offset = byte_offset;
        self.bit_offset = bit_offset;
    }

    /// Reads `bits` bits (at most 8) at the cursor into the low bits of the
    /// result and advances the cursor.
    pub fn read_bits_u8(&mut self, bits: u8) -> (r: Result<u8, CodecError>)
        requires
            old(self).inv(),
            1 <= bits,
        ensures
            final(self).inv(),
            final(self).bytes_view() == old(self).bytes_view(),
            bits > 8 ==> r == Err::<u8, CodecError>(CodecError::BitRange) && final(self).pos()
                == old(self).pos(),
            bits <= 8 && old(self).pos() + bits > old(self).bit_len() ==> r == Err::<
                u8,
                CodecError,
            >(CodecError::EndOfData) && final(self).pos() == old(self).pos(),
            bits <= 8 && old(self).pos() + bits <= old(self).bit_len() ==> {
                &&& r matches Ok(v) && v == bits_val(
                    old(self).bytes_view(),
                    old(self).pos(),
                    bits as nat,
                )
                &&& final(self).pos() == old(self).pos() + bits
            },
    {
        if bits > 8 {
            return Err(CodecError::BitRange);
        }
        if self.byte_offset >= self.data.len() || (self.byte_offset == self.data.len() - 1
            && self.bit_offset + bits > 8) {
            return Err(CodecError::EndOfData);
        }
        let ghost d = self.data@;
        let ghost k = self.byte_offset as int;
        let ghost off = self.bit_offset;
        let ghost p = old(self).pos();

        let mut result: u8;
        if self.bit_offset + bits >= 8 {
            let s = self.bit_offset + bits;
            assert(s % 8 == s - 8) by (bit_vector)
                requires
                    8 <= s < 16,
            ;
            let extra = s % 8;
            let remain = bits - extra;
            let first = self.data[self.byte_offset] >> self.bit_offset;
            result = first;
            self.byte_offset = self.byte_offset + 1;
            if extra > 0 {
                let second = (self.data[self.byte_offset] & (0xFFu8 >> (8 - extra))) << remain;
                result = result | second;
            }
            self.bit_offset = extra;
            proof {
                let b1 = d[k];
                assert((b1 >> off) & (0xFFu8 >> off) == (b1 >> off)) by (bit_vector)
                    requires
                        off < 8,
                ;
                if extra == 0 {
                    assert(remain == bits && 8 - remain == off);
                    lemma_bits_val_byte(d, k, off, bits);
                } else {
                    let b2 = d[k + 1];
                    lemma_bits_val_split(d, p, remain as nat, bits as nat);
                    lemma_bits_val_byte(d, k, off, remain);
                    assert(p + remain == 8 * (k + 1));
                    lemma_bits_val_byte(d, k + 1, 0, extra);
                    assert((b2 >> 0u8) == b2) by (bit_vector);
                    lemma_pow2_shift8(remain);
                    let sv = b2 & (0xFFu8 >> ((8 - extra) as u8));
                    assert(sv < (1u8 << extra)) by (bit_vector)
                        requires
                            1 <= extra <= 7,
                            sv == b2 & (0xFFu8 >> ((8 - extra) as u8)),
                    ;
                    assert(((b1 >> off) | (sv << remain)) == (b1 >> off) + sv * (1u8 << remain)
                        && sv * (1u8 << remain) == (sv << remain) as int) by (bit_vector)
                        requires
                            off < 8,
                            remain == 8 - off,
                            1 <= extra <= 7,
                            extra + remain <= 8,
                            sv < (1u8 << extra),
                    ;
                    assert(bits_val(d, p + remain, extra as nat) == sv);
                    let q = pow2(remain as nat);
                    let w = bits_val(d, p + remain, extra as nat);
                    assert(q * w == w * q) by (nonlinear_arith);
                    assert(pow2(remain as nat) * bits_val(d, p + remain, extra as nat) == sv * (
                    1u8 << remain) as nat);
                    assert(bits_val(d, p, bits as nat) == (b1 >> off) + sv * (1u8 << remain));
                }
            }
        } else {
            result = (self.data[self.byte_offset] >> self.bit_offset) & (0xFFu8 >> (8 - bits));
            self.bit_offset = self.bit_offset + bits;
            proof {
                lemma_bits_val_byte(d, k, off, bits);
            }
        }
        Ok(result)
    }

    /// Writes the low `bits` bits (at most 8) of `value` at the cursor,
    /// growing the buffer by one byte whenever the write needs a byte past
    /// the current length, and advances the cursor.
    pub fn write_bits_u8(&mut self, value: u8, bits: u8) -> (r: Result<(), CodecError>)
        requires
            old(self).write_frontier(),
            1 <= bits,
            old(self).bytes_view().len() < usize::MAX - 1,
        ensures
            final(self).bytes_view().len() >= old(self).bytes_view().len(),
            !(bits <= 8 && (bits == 8 || (value as nat) < pow2(bits as nat))) ==> {
                &&& r == Err::<(), CodecError>(CodecError::BitRange)
                &&& final(self).bytes_view() == old(self).bytes_view()
                &&& final(self).pos() == old(self).pos()
                &&& final(self).write_frontier()
            },
            bits <= 8 && (bits == 8 || (value as nat) < pow2(bits as nat)) ==> {
                &&& r == Ok::<(), CodecError>(())
                &&& final(self).write_frontier()
                &&& final(self).pos() == old(self).pos() + bits
                &&& final(self).bytes_view().len() <= old(self).bytes_view().len() + 1
                &&& forall|i: int|
                    0 <= i < old(self).pos() ==> stream_bit(final(self).bytes_view(), i)
                        == stream_bit(old(self).bytes_view(), i)
                &&& bits_val(final(self).bytes_view(), old(self).pos(), bits as nat) == value
            },
    {
        if bits > 8 {
            return Err(CodecError::BitRange);
        }
        proof {
            if bits < 8 {
                lemma_pow2_shift8(bits);
            }
        }
        if !(bits == 8 || value < (1u8 << bits)) {
            return Err(CodecError::BitRange);
        }
        let san_value = value & (0xFFu8 >> (8 - bits));
        proof {
            assert(san_value == value) by (bit_vector)
                requires
                    1 <= bits <= 8,
                    bits == 8 || value < (1u8 << bits),
                    san_value == value & (0xFFu8 >> ((8 - bits) as u8)),
            ;
        }
        let ghost d0 = self.data@;
        let ghost k = self.byte_offset as int;
        let ghost off = self.bit_offset;
        let ghost p = old(self).pos();

        if self.data.len() <= self.byte_offset {
            self.data.resize(self.byte_offset + 1, 0u8);
        }
        let ghost d1 = self.data@;
        proof {
            assert(0u8 >> off == 0) by (bit_vector);
            assert(d1.len() == k + 1);
            assert(d1[k] >> off == 0);
            assert(forall|q: int| 0 <= q < d0.len() && q < k ==> d1[q] == d0[q]);
            assert(p <= 8 * d0.len() && d0.len() <= k + 1);
        }

        if self.bit_offset + bits >= 8 {
            let s = self.bit_offset + bits;
            assert(s % 8 == s - 8) by (bit_vector)
                requires
                    8 <= s < 16,
            ;
            let extra = s % 8;
            let remain = bits - extra;
            let first = san_value & (0xFFu8 >> (8 - remain));
            let idx = self.byte_offset;
            let cur = self.data[idx];
            let nb = cur | (first << self.bit_offset);
            self.data[idx] = nb;
            if extra > 0 {
                let second = (san_value >> remain) & (0xFFu8 >> (8 - extra));
                self.data.push(second);
                proof {
                    let d = self.data@;
                    assert(second >> extra == 0) by (bit_vector)
                        requires
                            1 <= extra <= 7,
                            second == (san_value >> remain) & (0xFFu8 >> ((8 - extra) as u8)),
                    ;
                    // prefix bits below p are untouched
                    assert(forall|j: u8|
                        j < off ==> ((#[trigger] (nb >> j)) & 1) == ((cur >> j) & 1))
                        by (bit_vector)
                        requires
                            off < 8,
                            nb == cur | (first << off),
                    ;
                    lemma_prefix_bits(d, d0, k, off, p);
                    // the value's low `remain` bits land in byte k at `off`
                    lemma_bits_val_split(d, p, remain as nat, bits as nat);
                    lemma_bits_val_byte(d, k, off, remain);
                    assert(8 - remain == off);
                    assert((nb >> off) & (0xFFu8 >> off) == san_value & (0xFFu8 >> off))
                        by (bit_vector)
                        requires
                            off < 8,
                            remain == 8 - off,
                            nb == cur | (first << off),
                            cur >> off == 0,
                            first == san_value & (0xFFu8 >> ((8 - remain) as u8)),
                    ;
                    // the value's high `extra` bits land in byte k + 1
                    assert(p + remain == 8 * (k + 1));
                    lemma_bits_val_byte(d, k + 1, 0, extra);
                    assert((second >> 0u8) & (0xFFu8 >> ((8 - extra) as u8)) == second)
                        by (bit_vector)
                        requires
                            1 <= extra <= 7,
                            second == (san_value >> remain) & (0xFFu8 >> ((8 - extra) as u8)),
                    ;
                    lemma_pow2_shift8(remain);
                    let q = pow2(remain as nat);
                    let w = bits_val(d, p + remain, extra as nat);
                    assert(q * w == w * q) by (nonlinear_arith);
                    assert((san_value & (0xFFu8 >> off)) + second * (1u8 << remain) == san_value)
                        by (bit_vector)
                        requires
                            1 <= off < 8,
                            remain == 8 - off,
                            1 <= extra <= 7,
                            extra == off + bits - 8,
                            bits <= 8,
                            second == (san_value >> remain) & (0xFFu8 >> ((8 - extra) as u8)),
                            san_value == san_value & (0xFFu8 >> ((8 - bits) as u8)),
                    ;
                    assert(bits_val(d, p, bits as nat) == san_value);
                }
            } else {
                proof {
                    let d = self.data@;
                    assert(forall|j: u8|
                        j < off ==> ((#[trigger] (nb >> j)) & 1) == ((cur >> j) & 1))
                        by (bit_vector)
                        requires
                            off < 8,
                            nb == cur | (first << off),
                    ;
                    lemma_prefix_bits(d, d0, k, off, p);
                    assert(remain == bits && 8 - bits == off);
                    lemma_bits_val_byte(d, k, off, bits);
                    assert((nb >> off) & (0xFFu8 >> off) == san_value) by (bit_vector)
                        requires
                            off < 8,
                            nb == cur | (first << off),
                            cur >> off == 0,
                            first == san_value & (0xFFu8 >> off),
                            san_value == san_value & (0xFFu8 >> off),
                    ;
                }
            }
            self.byte_offset = idx + 1;
            self.bit_offset = extra;
        } else {
            let idx = self.byte_offset;
            let cur = self.data[idx];
            let nb = cur | ((san_value << self.bit_offset) & (0xFFu8 >> (8 - bits
                - self.bit_offset)));
            self.data[idx] = nb;
            self.bit_offset = self.bit_offset + bits;
            proof {
                let d = self.data@;
                assert(forall|j: u8| j < off ==> ((#[trigger] (nb >> j)) & 1) == ((cur >> j) & 1))
                    by (bit_vector)
                    requires
                        off < 8,
                        bits <= 8,
                        nb == cur | ((san_value << off) & (0xFFu8 >> ((8 - bits - off) as u8))),
                ;
                lemma_prefix_bits(d, d0, k, off, p);
                lemma_bits_val_byte(d, k, off, bits);
                assert((nb >> off) & (0xFFu8 >> ((8 - bits) as u8)) == san_value && nb >> ((off
                    + bits) as u8) == 0) by (bit_vector)
                    requires
                        off < 8,
                        1 <= bits,
                        off + bits < 8,
                        nb == cur | ((san_value << off) & (0xFFu8 >> ((8 - bits - off) as u8))),
                        cur >> off == 0,
                        san_value == san_value & (0xFFu8 >> ((8 - bits) as u8)),
                ;
            }
        }
        Ok(())
    }

    /// Reads `bits` bits (at most 16), low half first, then the high half
    /// shifted up by 8.
    pub fn read_bits_u16(&mut self, bits: u8) -> (r: Result<u16, CodecError>)
        requires
            old(self).inv(),
            1 <= bits,
        ensures
            final(self).inv(),
            final(self).bytes_view() == old(self).bytes_view(),
            old(self).pos() <= final(self).pos() <= old(self).pos() + bits,
            bits <= 16 && old(self).pos() + bits <= old(self).bit_len() ==> {
                &&& r matches Ok(v) && v == bits_val(
                    old(self).bytes_view(),
                    old(self).pos(),
                    bits as nat,
                )
                &&& final(self).pos() == old(self).pos() + bits
            },
            bits <= 16 && old(self).pos() + bits > old(self).bit_len() ==> r == Err::<
                u16,
                CodecError,
            >(CodecError::EndOfData),
            bits > 16 ==> r == (if old(self).pos() + 8 <= old(self).bit_len() {
                Err::<u16, CodecError>(CodecError::BitRange)
            } else {
                Err::<u16, CodecError>(CodecError::EndOfData)
            }),
    {
        let low_bits = if bits <= 8 {
            bits
        } else {
            8
        };
        let lower = match self.read_bits_u8(low_bits) {
            Ok(v) => v,
            Err(e) => {
                return Err(e);
            },
        };
        if bits <= 8 {
            Ok(lower as u16)
        } else {
            let upper = match self.read_bits_u8(bits - 8) {
                Ok(v) => v,
                Err(e) => {
                    return Err(e);
                },
            };
            proof {
                let d = old(self).bytes_view();
                let p = old(self).pos();
                lemma_bits_val_split(d, p, 8, bits as nat);
                lemma2_to64();
                assert(((lower as u16) | ((upper as u16) << 8u16)) == (lower as u16) + 256 * (
                upper as u16)) by (bit_vector);
            }
            Ok((lower as u16) | ((upper as u16) << 8u16))
        }
    }

    /// Reads `bits` bits (at most 32), low half first.
    pub fn read_bits_u32(&mut self, bits: u8) -> (r: Result<u32, CodecError>)
        requires
            old(self).inv(),
            1 <= bits,
        ensures
            final(self).inv(),
            final(self).bytes_view() == old(self).bytes_view(),
            old(self).pos() <= final(self).pos() <= old(self).pos() + bits,
            bits <= 32 && old(self).pos() + bits <= old(self).bit_len() ==> {
                &&& r matches Ok(v) && v == bits_val(
                    old(self).bytes_view(),
                    old(self).pos(),
                    bits as nat,
                )
                &&& final(self).pos() == old(self).pos() + bits
            },
            bits <= 32 && old(self).pos() + bits > old(self).bit_len() ==> r == Err::<
                u32,
                CodecError,
            >(CodecError::EndOfData),
            bits > 32 ==> r == (if old(self).pos() + 24 <= old(self).bit_len() {
                Err::<u32, CodecError>(CodecError::BitRange)
            } else {
                Err::<u32, CodecError>(CodecError::EndOfData)
            }),
    {
        let low_bits = if bits <= 16 {
            bits
        } else {
            16
        };
        let lower = match self.read_bits_u16(low_bits) {
            Ok(v) => v,
            Err(e) => {
                return Err(e);
            },
        };
        if bits <= 16 {
            Ok(lower as u32)
        } else {
            let upper = match self.read_bits_u16(bits - 16) {
                Ok(v) => v,
                Err(e) => {
                    return Err(e);
                },
            };
            proof {
                let d = old(self).bytes_view();
                let p = old(self).pos();
                lemma_bits_val_split(d, p, 16, bits as nat);
                lemma2_to64();
                assert(((lower as u32) | ((upper as u32) << 16u32)) == (lower as u32) + 65536 * (
                upper as u32)) by (bit_vector);
            }
            Ok((lower as u32) | ((upper as u32) << 16u32))
        }
    }

    /// Reads `bits` bits (at most 64), low half first.
    pub fn read_bits_u64(&mut self, bits: u8) -> (r: Result<u64, CodecError>)
        requires
            old(self).inv(),
            1 <= bits,
        ensures
            final(self).inv(),
            final(self).bytes_view() == old(self).bytes_view(),
            old(self).pos() <= final(self).pos() <= old(self).pos() + bits,
            bits <= 64 && old(self).pos() + bits <= old(self).bit_len() ==> {
                &&& r matches Ok(v) && v == bits_val(
                    old(self).bytes_view(),
                    old(self).pos(),
                    bits as nat,
                )
                &&& final(self).pos() == old(self).pos() + bits
            },
            bits <= 64 && old(self).pos() + bits > old(self).bit_len() ==> r == Err::<
                u64,
                CodecError,
            >(CodecError::EndOfData),
            bits > 64 ==> r == (if old(self).pos() + 56 <= old(self).bit_len() {
                Err::<u64, CodecError>(CodecError::BitRange)
            } else {
                Err::<u64, CodecError>(CodecError::EndOfData)
            }),
    {
        let low_bits = if bits <= 32 {
            bits
        } else {
            32
        };
        let lower = match self.read_bits_u32(low_bits) {
            Ok(v) => v,
            Err(e) => {
                return Err(e);
            },
        };
        if bits <= 32 {
            Ok(lower as u64)
        } else {
            let upper = match self.read_bits_u32(bits - 32) {
                Ok(v) => v,
                Err(e) => {
                    return Err(e);
                },
            };
            proof {
                let d = old(self).bytes_view();
                let p = old(self).pos();
                lemma_bits_val_split(d, p, 32, bits as nat);
                lemma2_to64();
                assert(((lower as u64) | ((upper as u64) << 32u64)) == (lower as u64)
                    + 0x1_0000_0000 * (upper as u64)) by (bit_vector);
            }
            Ok((lower as u64) | ((upper as u64) << 32u64))
        }
    }

    /// Writes the low `bits` bits (at most 16) of `value`, low byte first.
    pub fn write_bits_u16(&mut self, value: u16, bits: u8) -> (r: Result<(), CodecError>)
        requires
            old(self).write_frontier(),
            1 <= bits <= 16,
            old(self).bytes_view().len() + 2 < usize::MAX,
        ensures
            final(self).bytes_view().len() >= old(self).bytes_view().len(),
            !(bits == 16 || (value as nat) < pow2(bits as nat)) ==> {
                &&& r == Err::<(), CodecError>(CodecError::BitRange)
                &&& final(self).bytes_view() == old(self).bytes_view()
                &&& final(self).pos() == old(self).pos()
                &&& final(self).write_frontier()
            },
            bits == 16 || (value as nat) < pow2(bits as nat) ==> {
                &&& r == Ok::<(), CodecError>(())
                &&& final(self).write_frontier()
                &&& final(self).pos() == old(self).pos() + bits
                &&& final(self).bytes_view().len() <= old(self).bytes_view().len() + 2
                &&& forall|i: int|
                    0 <= i < old(self).pos() ==> stream_bit(final(self).bytes_view(), i)
                        == stream_bit(old(self).bytes_view(), i)
                &&& bits_val(final(self).bytes_view(), old(self).pos(), bits as nat) == value
            },
    {
        proof {
            if bits < 16 {
                vstd::bits::lemma_u16_pow2_no_overflow(bits as nat);
                vstd::bits::lemma_u16_shl_is_mul(1u16, bits as u16);
            }
        }
        if !(bits == 16 || value < (1u16 << (bits as u16))) {
            return Err(CodecError::BitRange);
        }
        let ghost d0 = old(self).bytes_view();
        let ghost p = old(self).pos();
        let lo = (value & 0xFF) as u8;
        let low_bits = if bits <= 8 {
            bits
        } else {
            8
        };
        proof {
            if bits < 8 {
                lemma_pow2_shift8(bits);
                assert((((value & 0xFF) as u8) < (1u8 << bits)) && ((value & 0xFF) as u8) as nat
                    == (value & 0xFF) as nat) by (bit_vector)
                    requires
                        1 <= bits < 8,
                        value < (1u16 << (bits as u16)),
                ;
            }
            assert(((value & 0xFF) as u8) as nat == (value & 0xFF) as nat) by (bit_vector);
        }
        match self.write_bits_u8(lo, low_bits) {
            Ok(_) => {},
            Err(e) => {
                return Err(e);
            },
        }
        if bits <= 8 {
            proof {
                assert((value & 0xFF) == value && ((value & 0xFF) as u8) as nat == value as nat)
                    by (bit_vector)
                    requires
                        1 <= bits <= 8,
                        value < (1u16 << (bits as u16)),
                ;
            }
            Ok(())
        } else {
            let ghost d1 = self.bytes_view();
            let hi = (value >> 8u16) as u8;
            proof {
                if bits < 16 {
                    lemma_pow2_shift8((bits - 8) as u8);
                    assert((((value >> 8u16) as u8) < (1u8 << ((bits - 8) as u8)))) by (bit_vector)
                        requires
                            8 < bits < 16,
                            value < (1u16 << (bits as u16)),
                    ;
                }
            }
            match self.write_bits_u8(hi, bits - 8) {
                Ok(_) => {},
                Err(e) => {
                    return Err(e);
                },
            }
            proof {
                let d2 = self.bytes_view();
                lemma_bits_val_split(d2, p, 8, bits as nat);
                lemma_bits_val_agree(d2, d1, p, 8);
                lemma2_to64();
                assert(((value & 0xFF) as u8) + 256 * ((value >> 8u16) as u8) == value)
                    by (bit_vector);
            }
            Ok(())
        }
    }

    /// Writes the low `bits` bits (at most 32) of `value`, low half first.
    pub fn write_bits_u32(&mut self, value: u32, bits: u8) -> (r: Result<(), CodecError>)
        requires
            old(self).write_frontier(),
            1 <= bits <= 32,
            old(self).bytes_view().len() + 4 < usize::MAX,
        ensures
            final(self).bytes_view().len() >= old(self).bytes_view().len(),
            !(bits == 32 || (value as nat) < pow2(bits as nat)) ==> {
                &&& r == Err::<(), CodecError>(CodecError::BitRange)
                &&& final(self).bytes_view() == old(self).bytes_view()
                &&& final(self).pos() == old(self).pos()
                &&& final(self).write_frontier()
            },
            bits == 32 || (value as nat) < pow2(bits as nat) ==> {
                &&& r == Ok::<(), CodecError>(())
                &&& final(self).write_frontier()
                &&& final(self).pos() == old(self).pos() + bits
                &&& final(self).bytes_view().len() <= old(self).bytes_view().len() + 4
                &&& forall|i: int|
                    0 <= i < old(self).pos() ==> stream_bit(final(self).bytes_view(), i)
                        == stream_bit(old(self).bytes_view(), i)
                &&& bits_val(final(self).bytes_view(), old(self).pos(), bits as nat) == value
            },
    {
        proof {
            if bits < 32 {
                vstd::bits::lemma_u32_pow2_no_overflow(bits as nat);
                vstd::bits::lemma_u32_shl_is_mul(1u32, bits as u32);
            }
        }
        if !(bits == 32 || value < (1u32 << (bits as u32))) {
            return Err(CodecError::BitRange);
        }
        let ghost d0 = old(self).bytes_view();
        let ghost p = old(self).pos();
        let lo = (value & 0xFF_FF) as u16;
        let low_bits = if bits <= 16 {
            bits
        } else {
            16
        };
        proof {
            if bits < 16 {
                vstd::bits::lemma_u16_pow2_no_overflow(bits as nat);
                vstd::bits::lemma_u16_shl_is_mul(1u16, bits as u16);
                assert((((value & 0xFF_FF) as u16) < (1u16 << (bits as u16)))) by (bit_vector)
                    requires
                        1 <= bits < 16,
                        value < (1u32 << (bits as u32)),
                ;
            }
            assert(((value & 0xFF_FF) as u16) as nat == (value & 0xFF_FF) as nat) by (bit_vector);
        }
        match self.write_bits_u16(lo, low_bits) {
            Ok(_) => {},
            Err(e) => {
                return Err(e);
            },
        }
        if bits <= 16 {
            proof {
                assert((value & 0xFF_FF) == value && ((value & 0xFF_FF) as u16) as nat
                    == value as nat) by (bit_vector)
                    requires
                        1 <= bits <= 16,
                        value < (1u32 << (bits as u32)),
                ;
            }
            Ok(())
        } else {
            let ghost d1 = self.bytes_view();
            let hi = (value >> 16u32) as u16;
            proof {
                if bits < 32 {
                    vstd::bits::lemma_u16_pow2_no_overflow((bits - 16) as nat);
                    vstd::bits::lemma_u16_shl_is_mul(1u16, (bits - 16) as u16);
                    assert((((value >> 16u32) as u16) < (1u16 << ((bits - 16) as u16))))
                        by (bit_vector)
                        requires
                            16 < bits < 32,
                            value < (1u32 << (bits as u32)),
                    ;
                }
            }
            match self.write_bits_u16(hi, bits - 16) {
                Ok(_) => {},
                Err(e) => {
                    return Err(e);
                },
            }
            proof {
                let d2 = self.bytes_view();
                lemma_bits_val_split(d2, p, 16, bits as nat);
                lemma_bits_val_agree(d2, d1, p, 16);
                lemma2_to64();
                assert(((value & 0xFF_FF) as u16) + 65536 * ((value >> 16u32) as u16) == value)
                    by (bit_vector);
            }
            Ok(())
        }
    }

    /// Writes the low `bits` bits (at most 64) of `value`, low half first.
    pub fn write_bits_u64(&mut self, value: u64, bits: u8) -> (r: Result<(), CodecError>)
        requires
            old(self).write_frontier(),
            1 <= bits <= 64,
            old(self).bytes_view().len() + 8 < usize::MAX,
        ensures
            final(self).bytes_view().len() >= old(self).bytes_view().len(),
            !(bits == 64 || (value as nat) < pow2(bits as nat)) ==> {
                &&& r == Err::<(), CodecError>(CodecError::BitRange)
                &&& final(self).bytes_view() == old(self).bytes_view()
                &&& final(self).pos() == old(self).pos()
                &&& final(self).write_frontier()
            },
            bits == 64 || (value as nat) < pow2(bits as nat) ==> {
                &&& r == Ok::<(), CodecError>(())
                &&& final(self).write_frontier()
                &&& final(self).pos() == old(self).pos() + bits
                &&& final(self).bytes_view().len() <= old(self).bytes_view().len() + 8
                &&& forall|i: int|
                    0 <= i < old(self).pos() ==> stream_bit(final(self).bytes_view(), i)
                        == stream_bit(old(self).bytes_view(), i)
                &&& bits_val(final(self).bytes_view(), old(self).pos(), bits as nat) == value
            },
    {
        proof {
            if bits < 64 {
                vstd::bits::lemma_u64_pow2_no_overflow(bits as nat);
                vstd::bits::lemma_u64_shl_is_mul(1u64, bits as u64);
            }
        }
        if !(bits == 64 || value < (1u64 << (bits as u64))) {
            return Err(CodecError::BitRange);
        }
        let ghost d0 = old(self).bytes_view();
        let ghost p = old(self).pos();
        let lo = (value & 0xFF_FF_FF_FF) as u32;
        let low_bits = if bits <= 32 {
            bits
        } else {
            32
        };
        proof {
            if bits < 32 {
                vstd::bits::lemma_u32_pow2_no_overflow(bits as nat);
                vstd::bits::lemma_u32_shl_is_mul(1u32, bits as u32);
                assert((((value & 0xFF_FF_FF_FF) as u32) < (1u32 << (bits as u32)))) by (bit_vector)
                    requires
                        1 <= bits < 32,
                        value < (1u64 << (bits as u64)),
                ;
            }
            assert(((value & 0xFF_FF_FF_FF) as u32) as nat == (value & 0xFF_FF_FF_FF) as nat)
                by (bit_vector);
        }
        match self.write_bits_u32(lo, low_bits) {
            Ok(_) => {},
            Err(e) => {
                return Err(e);
            },
        }
        if bits <= 32 {
            proof {
                assert((value & 0xFF_FF_FF_FF) == value && ((value & 0xFF_FF_FF_FF) as u32) as nat
                    == value as nat) by (bit_vector)
                    requires
                        1 <= bits <= 32,
                        value < (1u64 << (bits as u64)),
                ;
            }
            Ok(())
        } else {
            let ghost d1 = self.bytes_view();
            let hi = (value >> 32u64) as u32;
            proof {
                if bits < 64 {
                    vstd::bits::lemma_u32_pow2_no_overflow((bits - 32) as nat);
                    vstd::bits::lemma_u32_shl_is_mul(1u32, (bits - 32) as u32);
                    assert((((value >> 32u64) as u32) < (1u32 << ((bits - 32) as u32))))
                        by (bit_vector)
                        requires
                            32 < bits < 64,
                            value < (1u64 << (bits as u64)),
                    ;
                }
            }
            match self.write_bits_u32(hi, bits - 32) {
                Ok(_) => {},
                Err(e) => {
                    return Err(e);
                },
            }
            proof {
                let d2 = self.bytes_view();
                lemma_bits_val_split(d2, p, 32, bits as nat);
                lemma_bits_val_agree(d2, d1, p, 32);
                lemma2_to64();
                assert(((value & 0xFF_FF_FF_FF) as u32) + 0x1_0000_0000 * ((value >> 32u64) as u32)
                    == value) by (bit_vector);
            }
            Ok(())
        }
    }

    /// Reads one bit as a bool.
    pub fn read_bool(&mut self) -> (r: Result<bool, CodecError>)
        requires
            old(self).inv(),
        ensures
            final(self).inv(),
            final(self).bytes_view() == old(self).bytes_view(),
            old(self).pos() + 1 <= old(self).bit_len() ==> {
                &&& r matches Ok(b) && b == stream_bit(old(self).bytes_view(), old(self).pos())
                &&& final(self).pos() == old(self).pos() + 1
            },
            old(self).pos() + 1 > old(self).bit_len() ==> r == Err::<bool, CodecError>(
                CodecError::EndOfData,
            ) && final(self).pos() == old(self).pos(),
    {
        let v = match self.read_bits_u8(1) {
            Ok(v) => v,
            Err(e) => {
                return Err(e);
            },
        };
        proof {
            let d = old(self).bytes_view();
            let p = old(self).pos();
            assert(bits_val(d, p + 1, 0) == 0);
            assert(bits_val(d, p, 1) == if stream_bit(d, p) {
                1nat
            } else {
                0nat
            });
        }
        Ok(v == 1)
    }

    /// Reads a fixed 8-bit integer.
    pub fn read_u8(&mut self) -> (r: Result<u8, CodecError>)
        requires
            old(self).inv(),
        ensures
            final(self).inv(),
            final(self).bytes_view() == old(self).bytes_view(),
            old(self).pos() + 8 <= old(self).bit_len() ==> {
                &&& r matches Ok(v) && v == bits_val(old(self).bytes_view(), old(self).pos(), 8)
                &&& final(self).pos() == old(self).pos() + 8
            },
            old(self).pos() + 8 > old(self).bit_len() ==> r == Err::<u8, CodecError>(
                CodecError::EndOfData,
            ) && final(self).pos() == old(self).pos(),
    {
        self.read_bits_u8(8)
    }

    /// Reads a fixed 16-bit integer.
    pub fn read_u16(&mut self) -> (r: Result<u16, CodecError>)
        requires
            old(self).inv(),
        ensures
            final(self).inv(),
            final(self).bytes_view() == old(self).bytes_view(),
            old(self).pos() + 16 <= old(self).bit_len() ==> {
                &&& r matches Ok(v) && v == bits_val(old(self).bytes_view(), old(self).pos(), 16)
                &&& final(self).pos() == old(self).pos() + 16
            },
            old(self).pos() + 16 > old(self).bit_len() ==> r == Err::<u16, CodecError>(
                CodecError::EndOfData,
            ),
    {
        self.read_bits_u16(16)
    }

    /// Reads a fixed 32-bit integer.
    pub fn read_u32(&mut self) -> (r: Result<u32, CodecError>)
        requires
            old(self).inv(),
        ensures
            final(self).inv(),
            final(self).bytes_view() == old(self).bytes_view(),
            old(self).pos() + 32 <= old(self).bit_len() ==> {
                &&& r matches Ok(v) && v == bits_val(old(self).bytes_view(), old(self).pos(), 32)
                &&& final(self).pos() == old(self).pos() + 32
            },
            old(self).pos() + 32 > old(self).bit_len() ==> r == Err::<u32, CodecError>(
                CodecError::EndOfData,
            ),
    {
        self.read_bits_u32(32)
    }

    /// Reads a fixed 64-bit integer.
    pub fn read_u64(&mut self) -> (r: Result<u64, CodecError>)
        requires
            old(self).inv(),
        ensures
            final(self).inv(),
            final(self).bytes_view() == old(self).bytes_view(),
            old(self).pos() + 64 <= old(self).bit_len() ==> {
                &&& r matches Ok(v) && v == bits_val(old(self).bytes_view(), old(self).pos(), 64)
                &&& final(self).pos() == old(self).pos() + 64
            },
            old(self).pos() + 64 > old(self).bit_len() ==> r == Err::<u64, CodecError>(
                CodecError::EndOfData,
            ),
    {
        self.read_bits_u64(64)
    }

    /// Writes one bit.
    pub fn write_bool(&mut self, value: bool) -> (r: Result<(), CodecError>)
        requires
            old(self).write_frontier(),
            old(self).bytes_view().len() < usize::MAX - 1,
        ensures
            final(self).bytes_view().len() >= old(self).bytes_view().len(),
            r == Ok::<(), CodecError>(()),
            final(self).write_frontier(),
            final(self).pos() == old(self).pos() + 1,
            final(self).bytes_view().len() <= old(self).bytes_view().len() + 1,
            forall|i: int|
                0 <= i < old(self).pos() ==> stream_bit(final(self).bytes_view(), i) == stream_bit(
                    old(self).bytes_view(),
                    i,
                ),
            stream_bit(final(self).bytes_view(), old(self).pos()) == value,
    {
        let v: u8 = if value {
            1
        } else {
            0
        };
        proof {
            lemma2_to64();
        }
        let r = self.write_bits_u8(v, 1);
        proof {
            let d = final(self).bytes_view();
            let p = old(self).pos();
            assert(bits_val(d, p + 1, 0) == 0);
            assert(bits_val(d, p, 1) == if stream_bit(d, p) {
                1nat
            } else {
                0nat
            });
        }
        r
    }

    /// Writes a fixed 8-bit integer.
    pub fn write_u8(&mut self, value: u8) -> (r: Result<(), CodecError>)
        requires
            old(self).write_frontier(),
            old(self).bytes_view().len() < usize::MAX - 1,
        ensures
            final(self).bytes_view().len() >= old(self).bytes_view().len(),
            r == Ok::<(), CodecError>(()),
            final(self).write_frontier(),
            final(self).pos() == old(self).pos() + 8,
            final(self).bytes_view().len() <= old(self).bytes_view().len() + 1,
            forall|i: int|
                0 <= i < old(self).pos() ==> stream_bit(final(self).bytes_view(), i) == stream_bit(
                    old(self).bytes_view(),
                    i,
                ),
            bits_val(final(self).bytes_view(), old(self).pos(), 8) == value,
    {
        self.write_bits_u8(value, 8)
    }

    /// Writes a fixed 16-bit integer.
    pub fn write_u16(&mut self, value: u16) -> (r: Result<(), CodecError>)
        requires
            old(self).write_frontier(),
            old(self).bytes_view().len() + 2 < usize::MAX,
        ensures
            final(self).bytes_view().len() >= old(self).bytes_view().len(),
            r == Ok::<(), CodecError>(()),
            final(self).write_frontier(),
            final(self).pos() == old(self).pos() + 16,
            final(self).bytes_view().len() <= old(self).bytes_view().len() + 2,
            forall|i: int|
                0 <= i < old(self).pos() ==> stream_bit(final(self).bytes_view(), i) == stream_bit(
                    old(self).bytes_view(),
                    i,
                ),
            bits_val(final(self).bytes_view(), old(self).pos(), 16) == value,
    {
        self.write_bits_u16(value, 16)
    }

    /// Writes a fixed 32-bit integer.
    pub fn write_u32(&mut self, value: u32) -> (r: Result<(), CodecError>)
        requires
            old(self).write_frontier(),
            old(self).bytes_view().len() + 4 < usize::MAX,
        ensures
            final(self).bytes_view().len() >= old(self).bytes_view().len(),
            r == Ok::<(), CodecError>(()),
            final(self).write_frontier(),
            final(self).pos() == old(self).pos() + 32,
            final(self).bytes_view().len() <= old(self).bytes_view().len() + 4,
            forall|i: int|
                0 <= i < old(self).pos() ==> stream_bit(final(self).bytes_view(), i) == stream_bit(
                    old(self).bytes_view(),
                    i,
                ),
            bits_val(final(self).bytes_view(), old(self).pos(), 32) == value,
    {
        self.write_bits_u32(value, 32)
    }

    /// Writes a fixed 64-bit integer.
    pub fn write_u64(&mut self, value: u64) -> (r: Result<(), CodecError>)
        requires
            old(self).write_frontier(),
            old(self).bytes_view().len() + 8 < usize::MAX,
        ensures
            final(self).bytes_view().len() >= old(self).bytes_view().len(),
            r == Ok::<(), CodecError>(()),
            final(self).write_frontier(),
            final(self).pos() == old(self).pos() + 64,
            final(self).bytes_view().len() <= old(self).bytes_view().len() + 8,
            forall|i: int|
                0 <= i < old(self).pos() ==> stream_bit(final(self).bytes_view(), i) == stream_bit(
                    old(self).bytes_view(),
                    i,
                ),
            bits_val(final(self).bytes_view(), old(self).pos(), 64) == value,
    {
        self.write_bits_u64(value, 64)
    }


    /// Reads an optional value: a presence bit, then, when it is set, a
    /// value read by the supplied reader, which takes the stream and hands
    /// it back. An unset presence bit gives `None` without calling the
    /// reader.
    pub fn read_optional<T, F: FnOnce(BitStream) -> (BitStream, Result<T, CodecError>)>(
        &mut self,
        read_fn: F,
    ) -> (r: Result<Option<T>, CodecError>)
        requires
            old(self).inv(),
            forall|bs: BitStream| #[trigger] call_requires(read_fn, (bs,)),
        ensures
            old(self).pos() + 1 > old(self).bit_len() ==> r == Err::<Option<T>, CodecError>(
                CodecError::EndOfData,
            ) && final(self).bytes_view() == old(self).bytes_view() && final(self).pos() == old(
                self,
            ).pos() && final(self).inv(),
            old(self).pos() + 1 <= old(self).bit_len() && !stream_bit(
                old(self).bytes_view(),
                old(self).pos(),
            ) ==> r == Ok::<Option<T>, CodecError>(None) && final(self).bytes_view() == old(
                self,
            ).bytes_view() && final(self).pos() == old(self).pos() + 1 && final(self).inv(),
            old(self).pos() + 1 <= old(self).bit_len() && stream_bit(
                old(self).bytes_view(),
                old(self).pos(),
            ) ==> exists|mid: BitStream|
                {
                    &&& mid.bytes_view() == old(self).bytes_view()
                    &&& mid.pos() == old(self).pos() + 1
                    &&& mid.inv()
                    &&& (r matches Ok(Some(t)) ==> call_ensures(
                        read_fn,
                        (mid,),
                        (*final(self), Ok(t)),
                    ))
                    &&& (r matches Err(e) ==> call_ensures(
                        read_fn,
                        (mid,),
                        (*final(self), Err(e)),
                    ))
                    &&& !(r is Ok && r->Ok_0 is None)
                },
    {
        let present = match self.read_bool() {
            Ok(v) => v,
            Err(e) => {
                return Err(e);
            },
        };
        if present {
            let mut taken = BitStream::new(Vec::new());
            core::mem::swap(self, &mut taken);
            let ghost mid = taken;
            let (stream, res) = read_fn(taken);
            *self = stream;
            match res {
                Ok(v) => Ok(Some(v)),
                Err(e) => Err(e),
            }
        } else {
            Ok(None)
        }
    }

    /// Writes an optional value: a presence bit, then, when the value is
    /// present, the value written by the supplied writer, which takes the
    /// stream and hands it back. An absent value writes only the cleared
    /// presence bit.
    pub fn write_optional<T, F: FnOnce(BitStream, T) -> (BitStream, Result<(), CodecError>)>(
        &mut self,
        value: Option<T>,
        write_fn: F,
    ) -> (r: Result<(), CodecError>)
        requires
            old(self).write_frontier(),
            old(self).bytes_view().len() < usize::MAX - 1,
            forall|bs: BitStream, t: T| #[trigger] call_requires(write_fn, (bs, t)),
        ensures
            value is None ==> {
                &&& r == Ok::<(), CodecError>(())
                &&& final(self).write_frontier()
                &&& final(self).pos() == old(self).pos() + 1
                &&& final(self).bytes_view().len() <= old(self).bytes_view().len() + 1
                &&& forall|i: int|
                    0 <= i < old(self).pos() ==> stream_bit(final(self).bytes_view(), i)
                        == stream_bit(old(self).bytes_view(), i)
                &&& !stream_bit(final(self).bytes_view(), old(self).pos())
            },
            value matches Some(t) ==> exists|mid: BitStream|
                {
                    &&& mid.write_frontier()
                    &&& mid.pos() == old(self).pos() + 1
                    &&& mid.bytes_view().len() <= old(self).bytes_view().len() + 1
                    &&& (forall|i: int|
                        0 <= i < old(self).pos() ==> stream_bit(mid.bytes_view(), i)
                            == stream_bit(old(self).bytes_view(), i))
                    &&& stream_bit(mid.bytes_view(), old(self).pos())
                    &&& call_ensures(write_fn, (mid, t), (*final(self), r))
                },
    {
        match value {
            Some(val) => {
                let rb = self.write_bool(true);
                let mut taken = BitStream::new(Vec::new());
                core::mem::swap(self, &mut taken);
                let ghost mid = taken;
                let (stream, res) = write_fn(taken, val);
                *self = stream;
                res
            },
            None => self.write_bool(false),
        }
    }

    /// Reads a length-prefixed UTF-8 string: one length byte, then that many
    /// raw bytes, decoded as UTF-8.
    pub fn read_string(&mut self) -> (r: Result<String, CodecError>)
        requires
            old(self).inv(),
        ensures
            final(self).inv(),
            final(self).bytes_view() == old(self).bytes_view(),
            old(self).pos() <= final(self).pos(),
            old(self).pos() + 8 > old(self).bit_len() ==> r == Err::<String, CodecError>(
                CodecError::EndOfData,
            ) && final(self).pos() == old(self).pos(),
            old(self).pos() + 8 <= old(self).bit_len() && old(self).pos() + 8 + 8 * bits_val(
                old(self).bytes_view(),
                old(self).pos(),
                8,
            ) > old(self).bit_len() ==> r == Err::<String, CodecError>(CodecError::EndOfData),
            old(self).pos() + 8 + 8 * bits_val(old(self).bytes_view(), old(self).pos(), 8) <= old(
                self,
            ).bit_len() ==> final(self).pos() == old(self).pos() + 8 + 8 * bits_val(
                old(self).bytes_view(),
                old(self).pos(),
                8,
            ),
            old(self).pos() + 8 + 8 * bits_val(old(self).bytes_view(), old(self).pos(), 8) <= old(
                self,
            ).bit_len() && valid_utf8(str_body(old(self).bytes_view(), old(self).pos())) ==> (
            r matches Ok(s) && s@ == decode_utf8(str_body(old(self).bytes_view(), old(self).pos()))
                && encode_utf8(s@) == str_body(old(self).bytes_view(), old(self).pos())),
            old(self).pos() + 8 + 8 * bits_val(old(self).bytes_view(), old(self).pos(), 8) <= old(
                self,
            ).bit_len() && !valid_utf8(str_body(old(self).bytes_view(), old(self).pos())) ==> r
                == Err::<String, CodecError>(CodecError::Utf8),
    {
        let ghost d = old(self).bytes_view();
        let ghost p = old(self).pos();
        let length = match self.read_bits_u8(8) {
            Ok(v) => v,
            Err(e) => {
                return Err(e);
            },
        };
        let mut bytes: Vec<u8> = Vec::new();
        let mut i: u8 = 0;
        while i < length
            invariant
                i <= length,
                self.inv(),
                d == old(self).bytes_view(),
                p == old(self).pos(),
                self.bytes_view() == d,
                length == bits_val(d, p, 8),
                p + 8 <= 8 * d.len(),
                self.pos() == p + 8 + 8 * i,
                i == 0 || self.pos() <= 8 * d.len(),
                bytes@.len() == i,
                forall|j: int| 0 <= j < i ==> bytes@[j] == bits_val(d, p + 8 + 8 * j, 8),
            decreases length - i,
        {
            let b = match self.read_bits_u8(8) {
                Ok(v) => v,
                Err(e) => {
                    proof {
                        assert(p + 8 + 8 * (i + 1) > 8 * d.len());
                        assert(p + 8 + 8 * (length as int) >= p + 8 + 8 * (i + 1));
                    }
                    return Err(e);
                },
            };
            bytes.push(b);
            i = i + 1;
        }
        proof {
            assert(bytes@ =~= bytes_at(d, p + 8, length as nat));
        }
        vec_to_string(bytes)
    }

    /// Writes a length-prefixed UTF-8 string: one length byte, then the
    /// string's raw bytes.
    pub fn write_string(&mut self, value: String) -> (r: Result<(), CodecError>)
        requires
            old(self).write_frontier(),
            encode_utf8(value@).len() <= 255,
            old(self).bytes_view().len() + encode_utf8(value@).len() + 2 < usize::MAX,
        ensures
            final(self).bytes_view().len() >= old(self).bytes_view().len(),
            r == Ok::<(), CodecError>(()),
            final(self).write_frontier(),
            final(self).pos() == old(self).pos() + 8 + 8 * encode_utf8(value@).len(),
            final(self).bytes_view().len() <= old(self).bytes_view().len() + encode_utf8(
                value@,
            ).len() + 1,
            forall|i: int|
                0 <= i < old(self).pos() ==> stream_bit(final(self).bytes_view(), i) == stream_bit(
                    old(self).bytes_view(),
                    i,
                ),
            bits_val(final(self).bytes_view(), old(self).pos(), 8) == encode_utf8(value@).len(),
            bytes_at(final(self).bytes_view(), old(self).pos() + 8, encode_utf8(value@).len())
                == encode_utf8(value@),
    {
        let ghost d0 = old(self).bytes_view();
        let ghost p = old(self).pos();
        let bytes = value.as_str().as_bytes_vec();
        let len8: u8 = bytes.len() as u8;
        proof {
            lemma2_to64();
        }
        match self.write_bits_u8(len8, 8) {
            Ok(_) => {},
            Err(e) => {
                return Err(e);
            },
        }
        let mut i: usize = 0;
        while i < bytes.len()
            invariant
                i <= bytes.len(),
                d0 == old(self).bytes_view(),
                p == old(self).pos(),
                bytes@ == encode_utf8(value@),
                bytes@.len() <= 255,
                self.write_frontier(),
                self.bytes_view().len() <= d0.len() + 1 + i,
                d0.len() + bytes@.len() + 2 < usize::MAX,
                self.pos() == p + 8 + 8 * i,
                forall|q: int|
                    0 <= q < p ==> stream_bit(self.bytes_view(), q) == stream_bit(d0, q),
                bits_val(self.bytes_view(), p, 8) == bytes@.len(),
                forall|j: int|
                    0 <= j < i ==> bits_val(self.bytes_view(), p + 8 + 8 * j, 8) == bytes@[j],
            decreases bytes@.len() - i,
        {
            let ghost dprev = self.bytes_view();
            let b = bytes[i];
            match self.write_bits_u8(b, 8) {
                Ok(_) => {},
                Err(e) => {
                    return Err(e);
                },
            }
            proof {
                let dcur = self.bytes_view();
                assert(forall|q: int|
                    0 <= q < p + 8 + 8 * i ==> stream_bit(dcur, q) == stream_bit(dprev, q));
                lemma_bits_val_agree(dcur, dprev, p, 8);
                assert forall|j: int| 0 <= j < i implies bits_val(dcur, p + 8 + 8 * j, 8)
                    == bytes@[j] by {
                    lemma_bits_val_agree(dcur, dprev, p + 8 + 8 * j, 8);
                }
            }
            i = i + 1;
        }
        proof {
            assert(bytes_at(self.bytes_view(), p + 8, encode_utf8(value@).len()) =~= encode_utf8(
                value@,
            ));
        }
        Ok(())
    }
}

} // verus!


