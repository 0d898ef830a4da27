//! Mathematical model of bit streams, and the verified bit reader and bit writer
//! that the analysis code uses to pull fields out of records and to lay out
//! rearranged field data.
//!
//! A byte buffer is seen as a stream of bits. With the most-significant-first
//! order, bit 0 of the stream is the high bit (7) of the first byte; with the
//! least-significant-first order it is the low bit (0). A value of `n` bits read
//! from the stream takes its first bit as the most significant one in the first
//! order, and as the least significant one in the second.

use vstd::prelude::*;
use vstd::arithmetic::power2::{pow2, lemma_pow2_unfold, lemma2_to64, lemma2_to64_rest, lemma_pow2_pos,
    lemma_pow2_strictly_increases};

verus! {

/// Numeric value of a bit sequence whose first element is the most significant bit.
pub open spec fn msb_value(bits: Seq<bool>) -> nat
    decreases bits.len(),
{
    if bits.len() == 0 {
        0
    } else {
        2 * msb_value(bits.drop_last()) + (if bits.last() { 1nat } else { 0nat })
    }
}

/// Numeric value of a bit sequence whose first element is the least significant bit.
pub open spec fn lsb_value(bits: Seq<bool>) -> nat
    decreases bits.len(),
{
    if bits.len() == 0 {
        0
    } else {
        (if bits.first() { 1nat } else { 0nat }) + 2 * lsb_value(bits.drop_first())
    }
}

/// Value of a bit sequence read in the given order.
pub open spec fn read_value(bits: Seq<bool>, msb_first: bool) -> nat {
    if msb_first {
        msb_value(bits)
    } else {
        lsb_value(bits)
    }
}

/// Bit `i` (counting from the least significant bit) of a 64-bit value.
pub open spec fn bit_of(v: u64, i: int) -> bool {
    0 <= i < 64 && ((v >> (i as u64)) & 1u64) == 1u64
}

/// The `n` lowest bits of `v`, lowest bit first.
pub open spec fn low_bits(v: u64, n: nat) -> Seq<bool> {
    Seq::new(n, |i: int| bit_of(v, i))
}

/// The bits that writing the `n`-bit value `v` appends to a stream of the given order.
pub open spec fn value_bits(v: u64, n: nat, msb_first: bool) -> Seq<bool> {
    if msb_first {
        Seq::new(n, |i: int| bit_of(v, n - 1 - i))
    } else {
        low_bits(v, n)
    }
}

/// The value obtained by mirroring the `n` lowest bits of `v`.
pub open spec fn spec_reverse_bits(n: nat, v: u64) -> nat {
    msb_value(low_bits(v, n))
}

/// Bit `j` (0..8, in stream order) of a byte.
pub open spec fn byte_bit(b: u8, j: int, msb_first: bool) -> bool {
    if msb_first {
        ((b >> ((7 - j) as u8)) & 1u8) == 1u8
    } else {
        ((b >> (j as u8)) & 1u8) == 1u8
    }
}

/// The bit stream held by a byte buffer.
pub open spec fn stream_bits(bytes: Seq<u8>, msb_first: bool) -> Seq<bool> {
    Seq::new(bytes.len() * 8, |i: int| byte_bit(bytes[i / 8], i % 8, msb_first))
}

/// Errors of the bit reader.
#[derive(Debug, Clone, Copy, PartialEq, Eq, Structural)]
pub enum BitIoError {
    /// Fewer bits were left in the stream than were asked for.
    UnexpectedEof,
    /// More than 64 bits were asked for in one read.
    ExcessiveBits,
}

// ------------------------------------------------------------------------------------
// Lemmas on bit values.
// ------------------------------------------------------------------------------------

/// A value assembled from `n` bits is below `2^n`.
pub proof fn lemma_msb_value_bound(bits: Seq<bool>)
    ensures
        msb_value(bits) < pow2(bits.len()),
    decreases bits.len(),
{
    if bits.len() == 0 {
        lemma2_to64();
    } else {
        lemma_msb_value_bound(bits.drop_last());
        lemma_pow2_unfold(bits.len());
    }
}

/// A value assembled from `n` bits is below `2^n`.
pub proof fn lemma_lsb_value_bound(bits: Seq<bool>)
    ensures
        lsb_value(bits) < pow2(bits.len()),
    decreases bits.len(),
{
    if bits.len() == 0 {
        lemma2_to64();
    } else {
        lemma_lsb_value_bound(bits.drop_first());
        lemma_pow2_unfold(bits.len());
    }
}

/// A value read from `n` bits is below `2^n`.
pub proof fn lemma_read_value_bound(bits: Seq<bool>, msb_first: bool)
    ensures
        read_value(bits, msb_first) < pow2(bits.len()),
{
    lemma_msb_value_bound(bits);
    lemma_lsb_value_bound(bits);
}

/// Appending a bit doubles the value and adds the new bit.
pub proof fn lemma_msb_value_push(bits: Seq<bool>, b: bool)
    ensures
        msb_value(bits.push(b)) == 2 * msb_value(bits) + (if b { 1nat } else { 0nat }),
{
    assert(bits.push(b).drop_last() =~= bits);
}

/// Appending a bit adds it at weight `2^len`.
pub proof fn lemma_lsb_value_push(bits: Seq<bool>, b: bool)
    ensures
        lsb_value(bits.push(b)) == lsb_value(bits) + (if b { pow2(bits.len()) } else { 0nat }),
    decreases bits.len(),
{
    if bits.len() == 0 {
        lemma2_to64();
        assert(bits.push(b).drop_first() =~= Seq::<bool>::empty());
        assert(lsb_value(Seq::<bool>::empty()) == 0);
    } else {
        let rest = bits.drop_first();
        assert(bits.push(b).drop_first() =~= rest.push(b));
        lemma_lsb_value_push(rest, b);
        lemma_pow2_unfold(bits.len());
        assert(lsb_value(bits.push(b)) == (if bits.first() { 1nat } else { 0nat }) + 2 * lsb_value(rest.push(b)));
        if b {
            assert(2 * (lsb_value(rest) + pow2(rest.len())) == 2 * lsb_value(rest) + 2 * pow2(rest.len()));
        }
    }
}

/// A shifted-and-masked 64-bit value is a single bit.
pub proof fn lemma_bit_and_one(v: u64, i: u64)
    requires
        i < 64,
    ensures
        ((v >> i) & 1u64) == 0u64 || ((v >> i) & 1u64) == 1u64,
{
    assert(((v >> i) & 1u64) == 0u64 || ((v >> i) & 1u64) == 1u64) by (bit_vector);
}

/// Bits of `2x + b`: bit 0 is `b`, bit `k + 1` is bit `k` of `x`.
pub proof fn lemma_bits_of_double(x: u64, b: u64, v: u64)
    requires
        x < 0x8000_0000_0000_0000u64,
        b <= 1,
        v == 2 * x + b,
    ensures
        bit_of(v, 0) == (b == 1),
        forall|k: int| 1 <= k < 64 ==> #[trigger] bit_of(v, k) == bit_of(x, k - 1),
{
    assert(((v >> 0u64) & 1u64) == 1u64 <==> b == 1) by (bit_vector)
        requires
            x < 0x8000_0000_0000_0000u64,
            b <= 1,
            v == 2 * x + b,
    ;
    assert forall|k: int| 1 <= k < 64 implies #[trigger] bit_of(v, k) == bit_of(x, k - 1) by {
        let ku = k as u64;
        assert(((v >> ku) & 1u64) == ((x >> (ku - 1u64) as u64) & 1u64)) by (bit_vector)
            requires
                x < 0x8000_0000_0000_0000u64,
                b <= 1,
                v == 2 * x + b,
                1 <= ku < 64,
        ;
    }
}

/// Writing the value read from a segment of at most 64 bits, in the same order,
/// gives back the segment.
pub proof fn lemma_value_bits_of_read(seg: Seq<bool>, msb_first: bool)
    requires
        seg.len() <= 64,
    ensures
        read_value(seg, msb_first) < pow2(seg.len()),
        value_bits(read_value(seg, msb_first) as u64, seg.len(), msb_first) == seg,
    decreases seg.len(),
{
    lemma_read_value_bound(seg, msb_first);
    lemma2_to64();
    lemma2_to64_rest();
    if seg.len() == 0 {
        assert(value_bits(read_value(seg, msb_first) as u64, 0, msb_first) =~= seg);
    } else if msb_first {
        let rest = seg.drop_last();
        lemma_value_bits_of_read(rest, true);
        let x = msb_value(rest);
        let b: u64 = if seg.last() { 1 } else { 0 };
        if rest.len() < 63 {
            lemma_pow2_strictly_increases(rest.len(), 63);
        }
        assert(x < pow2(rest.len()));
        assert(x < 0x8000_0000_0000_0000u64);
        lemma_bits_of_double(x as u64, b, (2 * x + b) as u64);
        let n = seg.len();
        let v = msb_value(seg) as u64;
        assert forall|i: int| 0 <= i < n implies #[trigger] value_bits(v, n, true)[i] == seg[i] by {
            if i == n - 1 {
            } else {
                assert(value_bits(x as u64, (n - 1) as nat, true)[i] == rest[i]);
            }
        }
        assert(value_bits(v, n, true) =~= seg);
    } else {
        let rest = seg.drop_first();
        lemma_value_bits_of_read(rest, false);
        let x = lsb_value(rest);
        let b: u64 = if seg.first() { 1 } else { 0 };
        if rest.len() < 63 {
            lemma_pow2_strictly_increases(rest.len(), 63);
        }
        assert(x < pow2(rest.len()));
        assert(x < 0x8000_0000_0000_0000u64);
        lemma_bits_of_double(x as u64, b, (b + 2 * x) as u64);
        let n = seg.len();
        let v = lsb_value(seg) as u64;
        assert forall|i: int| 0 <= i < n implies #[trigger] value_bits(v, n, false)[i] == seg[i] by {
            if i == 0 {
            } else {
                assert(value_bits(x as u64, (n - 1) as nat, false)[i - 1] == rest[i - 1]);
            }
        }
        assert(value_bits(v, n, false) =~= seg);
    }
}

// ------------------------------------------------------------------------------------
// Lemmas on bytes.
// ------------------------------------------------------------------------------------

/// The stream-order mask of bit `j` of a byte.
pub open spec fn bit_mask(j: u8, msb_first: bool) -> u8 {
    if msb_first {
        0x80u8 >> j
    } else {
        1u8 << j
    }
}

/// Setting a bit in a byte sets exactly that bit of the stream.
pub proof fn lemma_set_byte_bit(b: u8, j: u8, msb_first: bool)
    requires
        j < 8,
    ensures
        forall|k: int|
            0 <= k < 8 ==> #[trigger] byte_bit(b | bit_mask(j, msb_first), k, msb_first) == (
            byte_bit(b, k, msb_first) || k == j),
{
    assert forall|k: int| 0 <= k < 8 implies #[trigger] byte_bit(b | bit_mask(j, msb_first), k, msb_first)
        == (byte_bit(b, k, msb_first) || k == j) by {
        let ku = k as u8;
        if msb_first {
            assert((((b | (0x80u8 >> j)) >> (7u8 - ku) as u8) & 1u8) == 1u8 <==> (((b >> (7u8
                - ku) as u8) & 1u8) == 1u8 || ku == j)) by (bit_vector)
                requires
                    j < 8,
                    ku < 8,
            ;
        } else {
            assert((((b | (1u8 << j)) >> ku) & 1u8) == 1u8 <==> (((b >> ku) & 1u8) == 1u8 || ku
                == j)) by (bit_vector)
                requires
                    j < 8,
                    ku < 8,
            ;
        }
    }
}

/// A zero byte holds only zero bits.
pub proof fn lemma_zero_byte_bits(msb_first: bool)
    ensures
        forall|k: int| 0 <= k < 8 ==> !#[trigger] byte_bit(0u8, k, msb_first),
{
    assert forall|k: int| 0 <= k < 8 implies !#[trigger] byte_bit(0u8, k, msb_first) by {
        let ku = k as u8;
        assert(((0u8 >> (7u8 - ku) as u8) & 1u8) != 1u8) by (bit_vector)
            requires
                ku < 8,
        ;
        assert(((0u8 >> ku) & 1u8) != 1u8) by (bit_vector)
            requires
                ku < 8,
        ;
    }
}

// ------------------------------------------------------------------------------------
// Bit reader.
// ------------------------------------------------------------------------------------

/// Reads bits from a byte buffer, in one of the two bit orders.
///
/// Its position may lie past the end of the stream, as a seek to a byte boundary
/// past the end is allowed; any read of one or more bits fails there.
pub struct BitReaderContainer<'a> {
    data: &'a [u8],
    msb_first: bool,
    pos: u64,
}

impl<'a> BitReaderContainer<'a> {
    /// The bits of the underlying buffer.
    pub closed spec fn stream(&self) -> Seq<bool> {
        stream_bits(self.data@, self.msb_first)
    }

    /// The current position, in bits.
    pub closed spec fn pos(&self) -> nat {
        self.pos as nat
    }

    /// Whether bits are taken from the high end of each byte first.
    pub closed spec fn is_msb_first(&self) -> bool {
        self.msb_first
    }

    /// The underlying bytes.
    pub closed spec fn bytes(&self) -> Seq<u8> {
        self.data@
    }

    pub closed spec fn wf(&self) -> bool {
        self.data@.len() * 8 <= u64::MAX
    }

    /// Creates a reader at position 0.
    pub fn new(data: &'a [u8], msb_first: bool) -> (r: Self)
        requires
            data@.len() * 8 <= u64::MAX,
        ensures
            r.wf(),
            r.pos() == 0,
            r.is_msb_first() == msb_first,
            r.bytes() == data@,
            r.stream() == stream_bits(data@, msb_first),
    {
        BitReaderContainer { data, msb_first, pos: 0 }
    }

    /// Number of bits in the stream.
    pub fn total_bits(&self) -> (t: u64)
        requires
            self.wf(),
        ensures
            t == self.stream().len(),
    {
        (self.data.len() as u64) * 8
    }

    /// The current position, in bits.
    pub fn position_in_bits(&self) -> (p: u64)
        ensures
            p == self.pos(),
    {
        self.pos
    }

    fn bit_at(&self, p: u64) -> (b: bool)
        requires
            self.wf(),
            p < self.stream().len(),
        ensures
            b == self.stream()[p as int],
    {
        let byte = self.data[(p / 8) as usize];
        let j = (p % 8) as u8;
        if self.msb_first {
            ((byte >> (7 - j)) & 1) == 1
        } else {
            ((byte >> j) & 1) == 1
        }
    }

    /// Reads `bits` bits (at most 64) as a value.
    ///
    /// Asking for more than 64 bits fails and leaves the position. Asking for
    /// more bits than are left fails and moves the position to the end of the
    /// stream. Zero bits read as 0 anywhere.
    pub fn read(&mut self, bits: u32) -> (r: Result<u64, BitIoError>)
        requires
            old(self).wf(),
        ensures
            final(self).wf(),
            final(self).stream() == old(self).stream(),
            final(self).bytes() == old(self).bytes(),
            final(self).is_msb_first() == old(self).is_msb_first(),
            r == spec_read_result(old(self).stream(), old(self).pos(), bits as nat, old(self).is_msb_first()),
            final(self).pos() == spec_read_pos(old(self).stream().len(), old(self).pos(), bits as nat),
    {
        if bits > 64 {
            return Err(BitIoError::ExcessiveBits);
        }
        if bits == 0 {
            return Ok(0);
        }
        let t = self.total_bits();
        if self.pos > t || t - self.pos < bits as u64 {
            self.pos = t;
            return Err(BitIoError::UnexpectedEof);
        }
        let n = bits as u64;
        let start = self.pos;
        let ghost s = self.stream();
        let mut v: u64 = 0;
        let mut i: u64 = 0;
        proof {
            lemma2_to64();
        }
        while i < n
            invariant
                self.wf(),
                self.stream() == s,
                i <= n <= 64,
                start + n <= s.len(),
                v as nat == read_value(s.subrange(start as int, start + i), self.msb_first),
                v < pow2(i as nat),
            decreases n - i,
        {
            let ghost seg = s.subrange(start as int, start + i);
            let b = self.bit_at(start + i);
            proof {
                assert(s.subrange(start as int, start + i + 1) =~= seg.push(b));
                lemma_read_value_bound(seg, self.msb_first);
                lemma_read_value_bound(seg.push(b), self.msb_first);
                lemma_msb_value_push(seg, b);
                lemma_lsb_value_push(seg, b);
                if i + 1 < 64 {
                    lemma_pow2_strictly_increases((i + 1) as nat, 64);
                }
                lemma_pow2_strictly_increases(i as nat, 64);
                lemma_pow2_unfold((i + 1) as nat);
                lemma2_to64();
            }
            if self.msb_first {
                v = v * 2 + (if b { 1 } else { 0 });
            } else if b {
                proof {
                    vstd::bits::lemma_u64_shl_is_mul(1, i);
                }
                v = v + (1u64 << i);
            }
            i = i + 1;
        }
        self.pos = start + n;
        Ok(v)
    }

    /// Moves to an absolute bit position.
    ///
    /// A position on a byte boundary, or inside the stream, is reached. Any other
    /// position fails and leaves the reader at the end of the stream.
    pub fn seek_bits(&mut self, target: u64) -> (r: Result<u64, BitIoError>)
        requires
            old(self).wf(),
        ensures
            final(self).wf(),
            final(self).stream() == old(self).stream(),
            final(self).bytes() == old(self).bytes(),
            final(self).is_msb_first() == old(self).is_msb_first(),
            r == spec_seek_result(old(self).stream().len(), target as nat),
            final(self).pos() == spec_seek_pos(old(self).stream().len(), target as nat),
    {
        let t = self.total_bits();
        if target % 8 == 0 || target <= t {
            self.pos = target;
            Ok(target)
        } else {
            self.pos = t;
            Err(BitIoError::UnexpectedEof)
        }
    }
}

/// Outcome of reading `bits` bits at `pos` from `stream`.
pub open spec fn spec_read_result(stream: Seq<bool>, pos: nat, bits: nat, msb_first: bool) -> Result<u64, BitIoError> {
    if bits > 64 {
        Err(BitIoError::ExcessiveBits)
    } else if bits == 0 {
        Ok(0)
    } else if pos + bits > stream.len() {
        Err(BitIoError::UnexpectedEof)
    } else {
        Ok(read_value(stream.subrange(pos as int, (pos + bits) as int), msb_first) as u64)
    }
}

/// Position after reading `bits` bits at `pos` from a stream of `len` bits.
pub open spec fn spec_read_pos(len: nat, pos: nat, bits: nat) -> nat {
    if bits > 64 || bits == 0 {
        pos
    } else if pos + bits > len {
        len
    } else {
        pos + bits
    }
}

/// Outcome of seeking to `target` in a stream of `len` bits.
pub open spec fn spec_seek_result(len: nat, target: nat) -> Result<u64, BitIoError> {
    if target % 8 == 0 || target <= len {
        Ok(target as u64)
    } else {
        Err(BitIoError::UnexpectedEof)
    }
}

/// Position after seeking to `target` in a stream of `len` bits.
pub open spec fn spec_seek_pos(len: nat, target: nat) -> nat {
    if target % 8 == 0 || target <= len {
        target
    } else {
        len
    }
}


// ------------------------------------------------------------------------------------
// Bit writer.
// ------------------------------------------------------------------------------------

/// The stream of a buffer after appending a byte.
pub proof fn lemma_stream_bits_push(bytes: Seq<u8>, x: u8, msb_first: bool)
    ensures
        stream_bits(bytes.push(x), msb_first).len() == stream_bits(bytes, msb_first).len() + 8,
        forall|i: int|
            0 <= i < bytes.len() * 8 ==> #[trigger] stream_bits(bytes.push(x), msb_first)[i]
                == stream_bits(bytes, msb_first)[i],
        forall|i: int|
            bytes.len() * 8 <= i < bytes.len() * 8 + 8 ==> #[trigger] stream_bits(
                bytes.push(x),
                msb_first,
            )[i] == byte_bit(x, i - bytes.len() * 8, msb_first),
{
    assert forall|i: int| 0 <= i < bytes.len() * 8 implies #[trigger] stream_bits(bytes.push(x), msb_first)[i]
        == stream_bits(bytes, msb_first)[i] by {
        assert(i / 8 < bytes.len()) by (nonlinear_arith)
            requires
                0 <= i < bytes.len() * 8,
        ;
    }
    assert forall|i: int| bytes.len() * 8 <= i < bytes.len() * 8 + 8 implies #[trigger] stream_bits(
        bytes.push(x),
        msb_first,
    )[i] == byte_bit(x, i - bytes.len() * 8, msb_first) by {
        let n = bytes.len() as int;
        assert(i / 8 == n && i % 8 == i - n * 8) by (nonlinear_arith)
            requires
                n * 8 <= i < n * 8 + 8,
        ;
    }
}

/// The stream of a buffer after replacing one byte.
pub proof fn lemma_stream_bits_update(bytes: Seq<u8>, idx: int, x: u8, msb_first: bool)
    requires
        0 <= idx < bytes.len(),
    ensures
        stream_bits(bytes.update(idx, x), msb_first).len() == stream_bits(bytes, msb_first).len(),
        forall|i: int|
            0 <= i < bytes.len() * 8 ==> #[trigger] stream_bits(bytes.update(idx, x), msb_first)[i]
                == if i / 8 == idx {
                byte_bit(x, i % 8, msb_first)
            } else {
                stream_bits(bytes, msb_first)[i]
            },
{
    assert forall|i: int| 0 <= i < bytes.len() * 8 implies #[trigger] stream_bits(bytes.update(idx, x), msb_first)[i]
        == if i / 8 == idx {
        byte_bit(x, i % 8, msb_first)
    } else {
        stream_bits(bytes, msb_first)[i]
    } by {
        assert(0 <= i / 8 < bytes.len()) by (nonlinear_arith)
            requires
                0 <= i < bytes.len() * 8,
        ;
    }
}

/// The bits that aligning a stream of `len` bits to a byte boundary appends.
pub open spec fn align_padding(len: nat) -> Seq<bool> {
    Seq::new(((8 - len % 8) % 8) as nat, |i: int| false)
}

/// A stream padded with zero bits up to a byte boundary.
pub open spec fn byte_aligned_stream(s: Seq<bool>) -> Seq<bool> {
    s + align_padding(s.len())
}

/// Padding an already aligned stream adds nothing.
pub proof fn lemma_aligned_idempotent(s: Seq<bool>)
    ensures
        byte_aligned_stream(s).len() % 8 == 0,
        byte_aligned_stream(byte_aligned_stream(s)) == byte_aligned_stream(s),
{
    let a = byte_aligned_stream(s);
    assert(a.len() % 8 == 0);
    assert(align_padding(a.len()) =~= Seq::<bool>::empty());
    assert(byte_aligned_stream(a) =~= a);
}

/// Accumulates bits, in one of the two bit orders, into a byte buffer.
///
/// The unused low-order end of the last byte always holds zero bits, so the
/// buffer read back after aligning is the written stream padded with zeros.
pub struct BitWriterContainer {
    data: Vec<u8>,
    used: u8,
    msb_first: bool,
}

impl BitWriterContainer {
    spec fn bit_len_of(len: nat, used: u8) -> nat {
        if used == 0 {
            len * 8
        } else {
            ((len - 1) * 8 + used) as nat
        }
    }

    /// The bits written so far.
    pub closed spec fn stream(&self) -> Seq<bool> {
        stream_bits(self.data@, self.msb_first).take(
            Self::bit_len_of(self.data@.len(), self.used) as int,
        )
    }

    /// Whether bits go to the high end of each byte first.
    pub closed spec fn is_msb_first(&self) -> bool {
        self.msb_first
    }

    /// The buffer's bytes.
    pub closed spec fn bytes(&self) -> Seq<u8> {
        self.data@
    }

    pub closed spec fn wf(&self) -> bool {
        &&& self.used < 8
        &&& self.used > 0 ==> self.data@.len() > 0
        &&& forall|i: int|
            Self::bit_len_of(self.data@.len(), self.used) <= i < self.data@.len() * 8
                ==> !#[trigger] stream_bits(self.data@, self.msb_first)[i]
    }

    /// Creates an empty writer.
    pub fn new(msb_first: bool) -> (w: Self)
        ensures
            w.wf(),
            w.stream() == Seq::<bool>::empty(),
            w.bytes() == Seq::<u8>::empty(),
            w.is_msb_first() == msb_first,
    {
        let w = BitWriterContainer { data: Vec::new(), used: 0, msb_first };
        assert(w.stream() =~= Seq::<bool>::empty());
        w
    }

    /// Creates a writer that already holds a copy of `data`; further bits are
    /// appended after it.
    pub fn with_owned_data(data: &[u8], msb_first: bool) -> (w: Self)
        ensures
            w.wf(),
            w.stream() == stream_bits(data@, msb_first),
            w.bytes() == data@,
            w.is_msb_first() == msb_first,
    {
        let mut v: Vec<u8> = Vec::new();
        let mut i: usize = 0;
        while i < data.len()
            invariant
                i <= data@.len(),
                v@ == data@.subrange(0, i as int),
            decreases data@.len() - i,
        {
            v.push(data[i]);
            i = i + 1;
            assert(v@ =~= data@.subrange(0, i as int));
        }
        assert(v@ =~= data@);
        let w = BitWriterContainer { data: v, used: 0, msb_first };
        assert(w.stream() =~= stream_bits(data@, msb_first));
        w
    }

    /// Whether bits go to the high end of each byte first.
    pub fn msb_first(&self) -> (b: bool)
        ensures
            b == self.is_msb_first(),
    {
        self.msb_first
    }

    /// Number of bits written so far.
    pub fn len_bits(&self) -> (n: u64)
        requires
            self.wf(),
            self.stream().len() <= u64::MAX,
        ensures
            n == self.stream().len(),
    {
        if self.used == 0 {
            (self.data.len() as u64) * 8
        } else {
            ((self.data.len() - 1) as u64) * 8 + self.used as u64
        }
    }

    /// Appends one bit.
    pub fn write_bit(&mut self, b: bool)
        requires
            old(self).wf(),
        ensures
            final(self).wf(),
            final(self).stream() == old(self).stream().push(b),
            final(self).is_msb_first() == old(self).is_msb_first(),
    {
        let ghost old_stream = self.stream();
        let ghost p = Self::bit_len_of(self.data@.len(), self.used);
        if self.used == 0 {
            proof {
                lemma_stream_bits_push(self.data@, 0u8, self.msb_first);
                lemma_zero_byte_bits(self.msb_first);
            }
            self.data.push(0u8);
        }
        let ghost data1 = self.data@;
        assert(p == (self.data@.len() - 1) * 8 + self.used);
        assert(forall|i: int| 0 <= i < p ==> #[trigger] stream_bits(data1, self.msb_first)[i] == old_stream[i]);
        assert(forall|i: int| p <= i < data1.len() * 8 ==> !#[trigger] stream_bits(data1, self.msb_first)[i]);
        let idx = self.data.len() - 1;
        if b {
            let j = self.used;
            let nb = self.data[idx] | (if self.msb_first { 0x80u8 >> j } else { 1u8 << j });
            proof {
                assert(nb == data1[idx as int] | bit_mask(j, self.msb_first));
                assert(p == idx * 8 + j);
                lemma_set_byte_bit(data1[idx as int], j, self.msb_first);
                lemma_stream_bits_update(data1, idx as int, nb, self.msb_first);
                assert forall|i: int| 0 <= i < data1.len() * 8 implies #[trigger] stream_bits(
                    data1.update(idx as int, nb),
                    self.msb_first,
                )[i] == (stream_bits(data1, self.msb_first)[i] || i == p) by {
                    if i / 8 == idx {
                        assert(i % 8 == i - idx * 8);
                        assert(0 <= i % 8 < 8);
                        assert(byte_bit(nb, i % 8, self.msb_first) == (byte_bit(data1[idx as int], i % 8, self.msb_first) || i % 8 == j));
                        assert(stream_bits(data1, self.msb_first)[i] == byte_bit(data1[idx as int], i % 8, self.msb_first));
                    } else {
                        assert(i != p);
                    }
                }
            }
            self.data.set(idx, nb);
        }
        self.used = if self.used == 7 { 0 } else { self.used + 1 };
        proof {
            let d = self.data@;
            assert(Self::bit_len_of(d.len(), self.used) == p + 1);
            assert forall|i: int| 0 <= i < p + 1 implies #[trigger] self.stream()[i] == old_stream.push(b)[i] by {
                assert(self.stream()[i] == stream_bits(d, self.msb_first)[i]);
            }
            assert(self.stream() =~= old_stream.push(b));
        }
    }

    /// Appends the `bits` lowest bits of `value`, most significant first in the
    /// most-significant-first order and least significant first otherwise.
    pub fn write(&mut self, bits: u32, value: u64)
        requires
            old(self).wf(),
            bits <= 64,
        ensures
            final(self).wf(),
            final(self).stream() == old(self).stream() + value_bits(value, bits as nat, old(self).is_msb_first()),
            final(self).is_msb_first() == old(self).is_msb_first(),
    {
        let n = bits as u64;
        let ghost s0 = self.stream();
        let ghost vb = value_bits(value, n as nat, self.msb_first);
        let ghost m = self.msb_first;
        let mut i: u64 = 0;
        while i < n
            invariant
                self.wf(),
                self.msb_first == m,
                m == old(self).is_msb_first(),
                i <= n <= 64,
                vb == value_bits(value, n as nat, self.msb_first),
                self.stream() == s0 + vb.subrange(0, i as int),
            decreases n - i,
        {
            let sh = if self.msb_first { n - 1 - i } else { i };
            let b = ((value >> sh) & 1) == 1;
            assert(b == vb[i as int]);
            self.write_bit(b);
            i = i + 1;
            assert(vb.subrange(0, i as int) =~= vb.subrange(0, (i - 1) as int).push(b));
        }
        assert(vb.subrange(0, n as int) =~= vb);
    }

    /// Pads the stream with zero bits up to the next byte boundary.
    pub fn byte_align(&mut self)
        requires
            old(self).wf(),
        ensures
            final(self).wf(),
            final(self).stream() == byte_aligned_stream(old(self).stream()),
            final(self).stream().len() % 8 == 0,
            final(self).is_msb_first() == old(self).is_msb_first(),
            final(self).bytes() == old(self).bytes(),
    {
        let ghost s0 = self.stream();
        let ghost d = self.data@;
        proof {
            let bl = Self::bit_len_of(d.len(), self.used);
            assert(bl % 8 == self.used as nat) by (nonlinear_arith)
                requires
                    bl == (if self.used == 0 { d.len() * 8 } else { ((d.len() - 1) * 8 + self.used) as nat }),
                    self.used < 8,
                    self.used > 0 ==> d.len() > 0,
            ;
            let padded = byte_aligned_stream(s0);
            assert(padded.len() == d.len() * 8);
            assert forall|i: int| 0 <= i < d.len() * 8 implies #[trigger] stream_bits(d, self.msb_first)[i] == padded[i] by {
                if i < bl {
                } else {
                }
            }
            assert(stream_bits(d, self.msb_first) =~= padded);
        }
        self.used = 0;
        assert(self.stream() =~= stream_bits(d, self.msb_first));
    }

    /// The buffer, whose bits are the stream padded with zero bits up to a byte
    /// boundary.
    pub fn as_bytes(&self) -> (buf: &[u8])
        requires
            self.wf(),
        ensures
            buf@ == self.bytes(),
            stream_bits(buf@, self.is_msb_first()) == byte_aligned_stream(self.stream()),
    {
        let ghost s0 = self.stream();
        let ghost d = self.data@;
        proof {
            let bl = Self::bit_len_of(d.len(), self.used);
            assert(bl % 8 == self.used as nat) by (nonlinear_arith)
                requires
                    bl == (if self.used == 0 { d.len() * 8 } else { ((d.len() - 1) * 8 + self.used) as nat }),
                    self.used < 8,
                    self.used > 0 ==> d.len() > 0,
            ;
            let padded = byte_aligned_stream(s0);
            assert(padded.len() == d.len() * 8);
            assert forall|i: int| 0 <= i < d.len() * 8 implies #[trigger] stream_bits(d, self.msb_first)[i] == padded[i] by {
                if i < bl {
                } else {
                }
            }
            assert(stream_bits(d, self.msb_first) =~= padded);
        }
        self.data.as_slice()
    }

    /// Aligns the stream to a byte boundary and returns the buffer.
    pub fn get_writer_buffer(&mut self) -> (buf: &[u8])
        requires
            old(self).wf(),
        ensures
            final(self).wf(),
            final(self).stream() == byte_aligned_stream(old(self).stream()),
            final(self).is_msb_first() == old(self).is_msb_first(),
            buf@ == final(self).bytes(),
            stream_bits(buf@, old(self).is_msb_first()) == final(self).stream(),
    {
        self.byte_align();
        proof {
            assert(self.stream() =~= stream_bits(self.data@, self.msb_first));
        }
        self.data.as_slice()
    }
}
} // verus!
