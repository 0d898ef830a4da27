//! Low-level utilities used while analyzing bit-packed data: bit reversal, the
//! read-back of written values, the size of data compressed with zstandard and
//! the LZ matches estimated in it.

use vstd::prelude::*;
use vstd::arithmetic::power2::{pow2, lemma_pow2_unfold, lemma2_to64};
use crate::bits::{bit_of, low_bits, msb_value, lsb_value, spec_reverse_bits, lemma_bit_and_one, lemma_msb_value_push,
    lemma_value_bits_of_read, lemma_msb_value_bound, read_value, value_bits, spec_read_result, BitIoError};

verus! {

/// Reverses the lowest `max_bits` bits of `bits`: bit `x` of the input becomes
/// bit `max_bits - 1 - x` of the result.
pub fn reverse_bits(max_bits: u32, bits: u64) -> (reversed: u64)
    requires
        max_bits <= 64,
    ensures
        reversed as nat == spec_reverse_bits(max_bits as nat, bits),
{
    let mut reversed: u64 = 0;
    let mut x: u64 = 0;
    let n = max_bits as u64;
    proof { lemma2_to64(); }
    while x < n
        invariant
            x <= n <= 64,
            reversed as nat == msb_value(low_bits(bits, x as nat)),
            reversed < pow2(x as nat),
        decreases n - x,
    {
        proof {
            lemma_bit_and_one(bits, x);
            lemma_pow2_unfold((x + 1) as nat);
            lemma2_to64();
            if x + 1 < 64 {
                vstd::arithmetic::power2::lemma_pow2_strictly_increases((x + 1) as nat, 64);
            }
        }
        let b = (bits >> x) & 1;
        proof {
            assert(low_bits(bits, (x + 1) as nat) =~= low_bits(bits, x as nat).push(bit_of(bits, x as int)));
            lemma_msb_value_push(low_bits(bits, x as nat), bit_of(bits, x as int));
        }
        reversed = reversed * 2 + b;
        x = x + 1;
    }
    reversed
}

/// A bit sequence in the opposite order.
pub open spec fn reversed(b: Seq<bool>) -> Seq<bool> {
    Seq::new(b.len(), |i: int| b[b.len() - 1 - i])
}

/// Reading a sequence most significant bit first reads its reverse least
/// significant bit first.
proof fn lemma_msb_is_reversed_lsb(b: Seq<bool>)
    ensures
        msb_value(b) == lsb_value(reversed(b)),
    decreases b.len(),
{
    if b.len() > 0 {
        let rest = b.drop_last();
        lemma_msb_is_reversed_lsb(rest);
        assert(reversed(b).drop_first() =~= reversed(rest));
        assert(reversed(b).first() == b.last());
    }
}

/// The `n` lowest bits of a value below `2^n`, read least significant bit
/// first, give the value back.
proof fn lemma_low_bits_value(v: u64, n: nat)
    requires
        n <= 64,
        v < pow2(n),
    ensures
        lsb_value(low_bits(v, n)) == v,
    decreases n,
{
    lemma2_to64();
    if n == 0 {
    } else {
        let h = v >> 1u64;
        assert(h == v / 2) by (bit_vector)
            requires
                h == v >> 1u64,
        ;
        assert(v == 2 * h + (v & 1u64)) by (bit_vector)
            requires
                h == v >> 1u64,
        ;
        assert((v & 1u64) == 1u64 <==> ((v >> 0u64) & 1u64) == 1u64) by (bit_vector);
        lemma_pow2_unfold(n);
        assert(h < pow2((n - 1) as nat));
        lemma_low_bits_value(h, (n - 1) as nat);
        assert forall|i: int| 0 <= i < n - 1 implies #[trigger] low_bits(v, n).drop_first()[i] == low_bits(h, (n - 1) as nat)[i] by {
            let iu = i as u64;
            assert(((v >> (iu + 1) as u64) & 1u64) == ((h >> iu) & 1u64)) by (bit_vector)
                requires
                    h == v >> 1u64,
                    iu < 63,
            ;
        }
        assert(low_bits(v, n).drop_first() =~= low_bits(h, (n - 1) as nat));
        lemma_bit_and_one(v, 0);
    }
}

/// Reversing the `n` lowest bits twice gives a value below `2^n` back.
pub proof fn lemma_reverse_bits_involution(n: nat, v: u64)
    requires
        n <= 64,
        v < pow2(n),
    ensures
        spec_reverse_bits(n, v) < pow2(n),
        spec_reverse_bits(n, spec_reverse_bits(n, v) as u64) == v,
{
    lemma2_to64();
    let l = low_bits(v, n);
    lemma_msb_value_bound(l);
    lemma_msb_is_reversed_lsb(l);
    let r = reversed(l);
    // The reversed value's low bits are the reversed bits.
    lemma_value_bits_of_read(r, false);
    assert(low_bits(lsb_value(r) as u64, n) =~= r);
    lemma_msb_is_reversed_lsb(r);
    assert(reversed(r) =~= l);
    lemma_low_bits_value(v, n);
}

/// Round trip: a value below `2^n`, written as `n` bits (at most 64) after any
/// stream, is read back from where it was written, in the same bit order.
pub proof fn lemma_written_value_reads_back(stream: Seq<bool>, v: u64, n: nat, msb_first: bool)
    requires
        n <= 64,
        v < pow2(n),
    ensures
        read_value(value_bits(v, n, msb_first), msb_first) == v,
        spec_read_result(stream + value_bits(v, n, msb_first), stream.len(), n, msb_first) == Ok::<u64, BitIoError>(v),
{
    let l = low_bits(v, n);
    lemma_low_bits_value(v, n);
    let r = reversed(l);
    assert(value_bits(v, n, true) =~= r);
    lemma_msb_is_reversed_lsb(r);
    assert(reversed(r) =~= l);
    let written = stream + value_bits(v, n, msb_first);
    assert(written.subrange(stream.len() as int, (stream.len() + n) as int) =~= value_bits(v, n, msb_first));
    if n == 0 {
        lemma2_to64();
    }
}

/// What zstandard's one-shot compression of `data` at `level` gives: the
/// compressed bytes, or `None` where the compressor reports an error.
pub uninterp spec fn zstd_compressed(data: Seq<u8>, level: i32) -> Option<Seq<u8>>;

/// Compresses `data` with `zstd::bulk::compress` at `level`.
///
/// Trusted: the result is the compressor's output for these bytes and this
/// level, or `None` where it returned an error; what the bytes are, and when
/// an error comes, is not stated.
#[verifier::external_body]
pub(crate) fn zstd_compress(data: &[u8], level: i32) -> (r: Option<Vec<u8>>)
    ensures
        match r {
            Some(v) => zstd_compressed(data@, level) == Some(v@),
            None => zstd_compressed(data@, level) is None,
        },
{
    zstd::bulk::compress(data, level).ok()
}

/// How many LZ matches `lossless_transform_utils` estimates `data` to hold.
pub uninterp spec fn lz_match_estimate(data: Seq<u8>) -> usize;

/// Calls `lossless_transform_utils::match_estimator::estimate_num_lz_matches_fast`.
///
/// Trusted: its result is named `lz_match_estimate`. With the crate's default
/// features the estimate comes from one hashing pass over the bytes, with a
/// fresh table each call, so it depends on the bytes alone; nothing more of
/// the count is stated.
#[verifier::external_body]
pub(crate) fn estimate_lz_matches(bytes: &[u8]) -> (n: usize)
    ensures
        n == lz_match_estimate(bytes@),
{
    lossless_transform_utils::match_estimator::estimate_num_lz_matches_fast(bytes)
}

/// The size of `data` once compressed with zstandard at `level`.
pub fn get_zstd_compressed_size(data: &[u8], level: i32) -> (n: u64)
    requires
        zstd_compressed(data@, level) is Some,
    ensures
        n == zstd_compressed(data@, level).unwrap().len(),
{
    match zstd_compress(data, level) {
        Some(compressed) => compressed.len() as u64,
        None => 0,
    }
}

/// The size of `data` once compressed with zstandard at `level`, or `None`
/// where the compressor fails.
pub fn try_get_zstd_compressed_size(data: &[u8], level: i32) -> (n: Option<u64>)
    ensures
        match n {
            Some(size) => zstd_compressed(data@, level) is Some && size == zstd_compressed(data@, level).unwrap().len(),
            None => zstd_compressed(data@, level) is None,
        },
{
    match zstd_compress(data, level) {
        Some(_) => Some(get_zstd_compressed_size(data, level)),
        None => None,
    }
}

} // verus!
