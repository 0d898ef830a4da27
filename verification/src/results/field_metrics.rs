//! The counts and sizes kept for each field, and how the metrics of several
//! runs over the same field are merged.

use vstd::prelude::*;
use std::collections::HashMap;
use crate::analyzer::{AnalyzerFieldState, BitStats, count_of};
use crate::bits::byte_aligned_stream;
use crate::utils::analyze_utils::{zstd_compress, zstd_compressed, estimate_lz_matches, lz_match_estimate};
use crate::schema::BitOrder;
use super::{AnalysisMergeError, get_parent_path};

verus! {

broadcast use vstd::std_specs::hash::group_hash_axioms;

/// Value counts `a` with the counts of `b` added.
pub open spec fn added_counts(a: Map<u64, u64>, b: Map<u64, u64>) -> Map<u64, u64> {
    Map::new(
        |key: u64| a.contains_key(key) || b.contains_key(key),
        |key: u64| (count_of(a, key) + count_of(b, key)) as u64,
    )
}

/// Adds the value counts of `from` into `into`.
fn add_value_counts(into: &mut HashMap<u64, u64>, from: &HashMap<u64, u64>)
    requires
        forall|key: u64| count_of(old(into)@, key) + count_of(from@, key) <= u64::MAX,
    ensures
        final(into)@ == added_counts(old(into)@, from@),
{
    let ghost start = into@;
    let ghost mut seen: Set<u64> = Set::empty();
    for (value, count) in it: from.iter()
        invariant
            forall|key: u64| count_of(start, key) + count_of(from@, key) <= u64::MAX,
            it.seq().len() == from@.dom().len(),
            forall|i: int| 0 <= i < it.seq().len() ==> from@.contains_key(*(#[trigger] it.seq()[i]).0)
                && from@[*it.seq()[i].0] == *it.seq()[i].1,
            forall|key: u64| #[trigger] from@.contains_key(key) ==> it.seq().contains((&key, &from@[key])),
            it.seq().no_duplicates(),
            forall|key: u64| #[trigger] seen.contains(key) <==> exists|i: int| 0 <= i < it.index() && *(#[trigger] it.seq()[i]).0 == key,
            forall|key: u64| #[trigger] from@.contains_key(key) ==> seen.contains(key)
                || exists|i: int| it.index() <= i < it.seq().len() && *(#[trigger] it.seq()[i]).0 == key,
            forall|key: u64| #[trigger] into@.contains_key(key) <==> start.contains_key(key) || seen.contains(key),
            forall|key: u64| #[trigger] into@.contains_key(key) ==> into@[key] == count_of(start, key) + (if seen.contains(key) { count_of(from@, key) } else { 0 }),
    {
        let ghost idx = it.index();
        assert(it.seq()[idx].0 == value && it.seq()[idx].1 == count);
        proof {
            if seen.contains(*value) {
                let i = choose|i: int| 0 <= i < idx && *(#[trigger] it.seq()[i]).0 == *value;
                assert(it.seq()[i] == it.seq()[idx]);
            }
        }
        let current: u64 = match into.get(value) {
            Some(c) => *c,
            None => 0,
        };
        assert(current == count_of(start, *value));
        into.insert(*value, current + *count);
        proof {
            seen = seen.insert(*value);
        }
    }
    proof {
        assert(into@ =~= added_counts(start, from@));
    }
}

/// The counts and sizes measured for one field or group. Its entropy, a
/// floating-point value, is kept beside it by the caller.
#[derive(Clone)]
pub struct FieldMetrics {
    /// Name of the field or group
    pub name: String,
    /// Name of the full path to the field or group
    pub full_path: String,
    /// The depth of the field in the group/field chain.
    pub depth: usize,
    /// Total number of observed values
    pub count: u64,
    /// Length of the field or group in bits.
    pub lenbits: u32,
    /// LZ compression matches in the field
    pub lz_matches: u64,
    /// Bit-level statistics. Index of tuple is bit offset.
    pub bit_counts: Vec<BitStats>,
    /// The order of the bits within the field
    pub bit_order: BitOrder,
    /// Count of occurrences for each observed value.
    pub value_counts: HashMap<u64, u64>,
    /// Estimated size of the compressed data from our estimator
    pub estimated_size: u64,
    /// Actual size of the compressed data when compressed with zstandard
    pub zstd_size: u64,
    /// Original size of the data before compression
    pub original_size: u64,
}

/// The sum of `f` over `items`.
pub open spec fn total(items: Seq<&FieldMetrics>, f: spec_fn(&FieldMetrics) -> nat) -> nat
    decreases items.len(),
{
    if items.len() == 0 {
        0
    } else {
        total(items.drop_last(), f) + f(items.last())
    }
}

/// The number of values seen, summed over `items`.
pub open spec fn count_total(items: Seq<&FieldMetrics>) -> nat {
    total(items, |m: &FieldMetrics| m.count as nat)
}

/// The LZ matches, summed over `items`.
pub open spec fn lz_total(items: Seq<&FieldMetrics>) -> nat {
    total(items, |m: &FieldMetrics| m.lz_matches as nat)
}

/// The estimated sizes, summed over `items`.
pub open spec fn estimated_total(items: Seq<&FieldMetrics>) -> nat {
    total(items, |m: &FieldMetrics| m.estimated_size as nat)
}

/// The zstandard sizes, summed over `items`.
pub open spec fn zstd_total(items: Seq<&FieldMetrics>) -> nat {
    total(items, |m: &FieldMetrics| m.zstd_size as nat)
}

/// The original sizes, summed over `items`.
pub open spec fn original_total(items: Seq<&FieldMetrics>) -> nat {
    total(items, |m: &FieldMetrics| m.original_size as nat)
}

/// The index of the first of `others`, from `j` on, whose length in bits is
/// not `lenbits`, if any.
pub open spec fn first_length_mismatch(lenbits: u32, others: Seq<&FieldMetrics>, j: nat) -> Option<nat>
    decreases others.len() - j,
{
    if j >= others.len() {
        None
    } else if others[j as int].lenbits != lenbits {
        Some(j)
    } else {
        first_length_mismatch(lenbits, others, j + 1)
    }
}

/// The index of the first of `others`, from `j` on, whose bit statistics do
/// not cover `n` positions, or the number of `others` if there is none.
pub open spec fn bits_match_until(n: nat, others: Seq<&FieldMetrics>, j: nat) -> nat
    decreases others.len() - j,
{
    if j >= others.len() {
        j
    } else if others[j as int].bit_counts@.len() != n {
        j
    } else {
        bits_match_until(n, others, j + 1)
    }
}

/// The zero counts at bit `i`, summed over the first `j` of `others`.
pub open spec fn zeros_total(others: Seq<&FieldMetrics>, j: nat, i: int) -> nat
    decreases j,
{
    if j == 0 {
        0
    } else {
        zeros_total(others, (j - 1) as nat, i) + others[j - 1].bit_counts@[i].zeros as nat
    }
}

/// The one counts at bit `i`, summed over the first `j` of `others`.
pub open spec fn ones_total(others: Seq<&FieldMetrics>, j: nat, i: int) -> nat
    decreases j,
{
    if j == 0 {
        0
    } else {
        ones_total(others, (j - 1) as nat, i) + others[j - 1].bit_counts@[i].ones as nat
    }
}

/// Bit statistics `base` with those of the first `j` of `others` added, bit by bit.
pub open spec fn merged_bits(base: Seq<BitStats>, others: Seq<&FieldMetrics>, j: nat) -> Seq<BitStats> {
    Seq::new(base.len(), |i: int| BitStats {
        zeros: (base[i].zeros + zeros_total(others, j, i)) as u64,
        ones: (base[i].ones + ones_total(others, j, i)) as u64,
    })
}

/// Value counts `base` with those of the first `j` of `others` added.
pub open spec fn merged_values(base: Map<u64, u64>, others: Seq<&FieldMetrics>, j: nat) -> Map<u64, u64>
    decreases j,
{
    if j == 0 {
        base
    } else {
        added_counts(merged_values(base, others, (j - 1) as nat), others[j - 1].value_counts@)
    }
}

/// The count of `key` in `base` and in the first `j` of `others`, summed.
pub open spec fn value_total(base: Map<u64, u64>, others: Seq<&FieldMetrics>, j: nat, key: u64) -> nat
    decreases j,
{
    if j == 0 {
        count_of(base, key)
    } else {
        value_total(base, others, (j - 1) as nat, key) + count_of(others[j - 1].value_counts@, key)
    }
}

/// Whether merging `others` into `m` keeps every sum within `u64`.
pub open spec fn merge_fits(m: FieldMetrics, others: Seq<&FieldMetrics>) -> bool {
    let b = bits_match_until(m.bit_counts@.len(), others, 0);
    &&& m.count + count_total(others) <= u64::MAX
    &&& m.lz_matches + lz_total(others) <= u64::MAX
    &&& m.estimated_size + estimated_total(others) <= u64::MAX
    &&& m.zstd_size + zstd_total(others) <= u64::MAX
    &&& m.original_size + original_total(others) <= u64::MAX
    &&& forall|i: int| 0 <= i < m.bit_counts@.len() ==> #[trigger] m.bit_counts@[i].zeros + zeros_total(others, b, i) <= u64::MAX
    &&& forall|i: int| 0 <= i < m.bit_counts@.len() ==> #[trigger] m.bit_counts@[i].ones + ones_total(others, b, i) <= u64::MAX
    &&& forall|key: u64| #[trigger] value_total(m.value_counts@, others, b, key) <= u64::MAX
}

/// Adds the bit statistics `from` into `into`, position by position.
fn add_bit_stats(into: &mut Vec<BitStats>, from: &Vec<BitStats>)
    requires
        old(into)@.len() == from@.len(),
        forall|i: int| 0 <= i < from@.len() ==> #[trigger] old(into)@[i].zeros + from@[i].zeros <= u64::MAX
            && old(into)@[i].ones + from@[i].ones <= u64::MAX,
    ensures
        final(into)@.len() == old(into)@.len(),
        forall|i: int| 0 <= i < from@.len() ==> #[trigger] final(into)@[i] == (BitStats {
            zeros: (old(into)@[i].zeros + from@[i].zeros) as u64,
            ones: (old(into)@[i].ones + from@[i].ones) as u64,
        }),
{
    let ghost start = into@;
    let mut i: usize = 0;
    while i < from.len()
        invariant
            i <= from@.len(),
            into@.len() == start.len(),
            start.len() == from@.len(),
            forall|x: int| 0 <= x < from@.len() ==> #[trigger] start[x].zeros + from@[x].zeros <= u64::MAX
                && start[x].ones + from@[x].ones <= u64::MAX,
            forall|x: int| 0 <= x < i ==> #[trigger] into@[x] == (BitStats {
                zeros: (start[x].zeros + from@[x].zeros) as u64,
                ones: (start[x].ones + from@[x].ones) as u64,
            }),
            forall|x: int| i <= x < from@.len() ==> #[trigger] into@[x] == start[x],
        decreases from@.len() - i,
    {
        let current = into[i];
        let add = from[i];
        into.set(i, BitStats { zeros: current.zeros + add.zeros, ones: current.ones + add.ones });
        i = i + 1;
    }
}

/// Sums over a prefix grow with the prefix.
proof fn lemma_totals_grow(base: Map<u64, u64>, others: Seq<&FieldMetrics>, j: nat, k: nat, i: int, key: u64)
    requires
        j <= k <= others.len(),
    ensures
        zeros_total(others, j, i) <= zeros_total(others, k, i),
        ones_total(others, j, i) <= ones_total(others, k, i),
        value_total(base, others, j, key) <= value_total(base, others, k, key),
    decreases k,
{
    if j < k {
        lemma_totals_grow(base, others, j, (k - 1) as nat, i, key);
    }
}

/// Merged value counts hold, for each value, the sum of its counts over
/// everything merged (where that sum fits in `u64`), and a value is counted
/// exactly when one of the merged counts has it.
pub proof fn lemma_merged_values(base: Map<u64, u64>, others: Seq<&FieldMetrics>, j: nat, key: u64)
    requires
        j <= others.len(),
        value_total(base, others, j, key) <= u64::MAX,
    ensures
        count_of(merged_values(base, others, j), key) == value_total(base, others, j, key),
        merged_values(base, others, j).contains_key(key) <==> (base.contains_key(key)
            || exists|k: int| 0 <= k < j && (#[trigger] others[k]).value_counts@.contains_key(key)),
    decreases j,
{
    if j > 0 {
        lemma_totals_grow(base, others, (j - 1) as nat, j, 0, key);
        lemma_merged_values(base, others, (j - 1) as nat, key);
        if base.contains_key(key) || exists|k: int| 0 <= k < j && (#[trigger] others[k]).value_counts@.contains_key(key) {
            if !base.contains_key(key) && !others[j - 1].value_counts@.contains_key(key) {
                let k = choose|k: int| 0 <= k < j && (#[trigger] others[k]).value_counts@.contains_key(key);
                assert(k < j - 1);
            }
        }
    }
}

/// Scanning from `j` finds the same first mismatch as from 0 when none lies before `j`.
proof fn lemma_first_length_mismatch(lenbits: u32, others: Seq<&FieldMetrics>, j: nat)
    requires
        j <= others.len(),
        forall|k: int| 0 <= k < j ==> (#[trigger] others[k]).lenbits == lenbits,
    ensures
        first_length_mismatch(lenbits, others, 0) == first_length_mismatch(lenbits, others, j),
    decreases j,
{
    if j > 0 {
        lemma_first_length_mismatch(lenbits, others, (j - 1) as nat);
    }
}

/// Scanning from `j` finds the same first bit-statistics mismatch as from 0
/// when none lies before `j`.
proof fn lemma_bits_match_until(n: nat, others: Seq<&FieldMetrics>, j: nat)
    requires
        j <= others.len(),
        forall|k: int| 0 <= k < j ==> (#[trigger] others[k]).bit_counts@.len() == n,
    ensures
        bits_match_until(n, others, 0) == bits_match_until(n, others, j),
        j <= bits_match_until(n, others, j) <= others.len(),
    decreases j,
{
    lemma_bits_match_until_bound(n, others, j);
    if j > 0 {
        lemma_bits_match_until(n, others, (j - 1) as nat);
    }
}

/// The scan from `j` stops within the list, at an item whose bit statistics differ
/// (if any), after items whose bit statistics all match.
proof fn lemma_bits_match_until_bound(n: nat, others: Seq<&FieldMetrics>, j: nat)
    requires
        j <= others.len(),
    ensures
        j <= bits_match_until(n, others, j) <= others.len(),
        bits_match_until(n, others, j) < others.len() ==> others[bits_match_until(n, others, j) as int].bit_counts@.len() != n,
        forall|k: int| j <= k < bits_match_until(n, others, j) ==> (#[trigger] others[k]).bit_counts@.len() == n,
    decreases others.len() - j,
{
    if j < others.len() && others[j as int].bit_counts@.len() == n {
        lemma_bits_match_until_bound(n, others, j + 1);
    }
}

impl FieldMetrics {
    /// Merge multiple [`FieldMetrics`] objects into this one, for an aggregate
    /// over a large data set: counts are summed; LZ matches and sizes are
    /// averaged over all of them (rounding down); bit statistics and value
    /// counts are summed.
    ///
    /// A field length that differs from this one fails first and changes
    /// nothing. Otherwise, where the bit statistics of one of `others` cover a
    /// different number of bits, the merge stops there with an error, having
    /// added the bit statistics and value counts of the ones before it.
    pub fn try_merge_many(&mut self, others: &[&Self]) -> (r: Result<(), AnalysisMergeError>)
        requires
            others@.len() < usize::MAX,
            first_length_mismatch(old(self).lenbits, others@, 0) is None ==> merge_fits(*old(self), others@),
        ensures
            match first_length_mismatch(old(self).lenbits, others@, 0) {
                Some(j) => {
                    &&& r == Err::<(), AnalysisMergeError>(AnalysisMergeError::FieldLengthMismatch(old(self).lenbits, others@[j as int].lenbits))
                    &&& *final(self) == *old(self)
                },
                None => {
                    let b = bits_match_until(old(self).bit_counts@.len(), others@, 0);
                    let n = others@.len() + 1int;
                    &&& final(self).count == old(self).count + count_total(others@)
                    &&& final(self).lz_matches == (old(self).lz_matches + lz_total(others@)) / n
                    &&& final(self).estimated_size == (old(self).estimated_size + estimated_total(others@)) / n
                    &&& final(self).zstd_size == (old(self).zstd_size + zstd_total(others@)) / n
                    &&& final(self).original_size == (old(self).original_size + original_total(others@)) / n
                    &&& final(self).bit_counts@ == merged_bits(old(self).bit_counts@, others@, b)
                    &&& final(self).value_counts@ == merged_values(old(self).value_counts@, others@, b)
                    &&& final(self).name == old(self).name
                    &&& final(self).full_path == old(self).full_path
                    &&& final(self).depth == old(self).depth
                    &&& final(self).lenbits == old(self).lenbits
                    &&& final(self).bit_order == old(self).bit_order
                    &&& r == if b < others@.len() {
                        Err::<(), AnalysisMergeError>(AnalysisMergeError::BitCountsDontMatch)
                    } else {
                        Ok(())
                    }
                },
            },
    {
        let mut k: usize = 0;
        while k < others.len()
            invariant
                k <= others@.len(),
                forall|j: int| 0 <= j < k ==> (#[trigger] others@[j]).lenbits == self.lenbits,
            decreases others@.len() - k,
        {
            if self.lenbits != others[k].lenbits {
                proof {
                    lemma_first_length_mismatch(self.lenbits, others@, k as nat);
                }
                return Err(AnalysisMergeError::FieldLengthMismatch(self.lenbits, others[k].lenbits));
            }
            k = k + 1;
        }
        proof {
            lemma_first_length_mismatch(self.lenbits, others@, k as nat);
        }
        let total_items = (others.len() + 1) as u64;
        let mut total_count = self.count;
        let mut total_lz_matches = self.lz_matches;
        let mut total_estimated_size = self.estimated_size;
        let mut total_zstd_size = self.zstd_size;
        let mut total_original_size = self.original_size;
        let ghost all = others@;
        let mut k: usize = 0;
        while k < others.len()
            invariant
                k <= others@.len(),
                all == others@,
                merge_fits(*old(self), all),
                *self == *old(self),
                total_count == self.count + count_total(all.take(k as int)),
                total_lz_matches == self.lz_matches + lz_total(all.take(k as int)),
                total_estimated_size == self.estimated_size + estimated_total(all.take(k as int)),
                total_zstd_size == self.zstd_size + zstd_total(all.take(k as int)),
                total_original_size == self.original_size + original_total(all.take(k as int)),
            decreases others@.len() - k,
        {
            let metrics = others[k];
            proof {
                assert(all.take(k + 1).drop_last() =~= all.take(k as int));
                lemma_total_prefix(all, (k + 1) as nat, |m: &FieldMetrics| m.count as nat);
                lemma_total_prefix(all, (k + 1) as nat, |m: &FieldMetrics| m.lz_matches as nat);
                lemma_total_prefix(all, (k + 1) as nat, |m: &FieldMetrics| m.estimated_size as nat);
                lemma_total_prefix(all, (k + 1) as nat, |m: &FieldMetrics| m.zstd_size as nat);
                lemma_total_prefix(all, (k + 1) as nat, |m: &FieldMetrics| m.original_size as nat);
                lemma_total_take_le(all, (k + 1) as nat, |m: &FieldMetrics| m.count as nat);
                lemma_total_take_le(all, (k + 1) as nat, |m: &FieldMetrics| m.lz_matches as nat);
                lemma_total_take_le(all, (k + 1) as nat, |m: &FieldMetrics| m.estimated_size as nat);
                lemma_total_take_le(all, (k + 1) as nat, |m: &FieldMetrics| m.zstd_size as nat);
                lemma_total_take_le(all, (k + 1) as nat, |m: &FieldMetrics| m.original_size as nat);
            }
            total_count = total_count + metrics.count;
            total_lz_matches = total_lz_matches + metrics.lz_matches;
            total_estimated_size = total_estimated_size + metrics.estimated_size;
            total_zstd_size = total_zstd_size + metrics.zstd_size;
            total_original_size = total_original_size + metrics.original_size;
            k = k + 1;
        }
        proof {
            assert(all.take(k as int) =~= all);
        }
        self.count = total_count;
        self.lz_matches = total_lz_matches / total_items;
        self.estimated_size = total_estimated_size / total_items;
        self.zstd_size = total_zstd_size / total_items;
        self.original_size = total_original_size / total_items;
        self.merge_bit_stats_and_value_counts(others)
    }

    /// Adds the bit statistics and value counts of `others`, one after the
    /// other, stopping with an error at the first whose bit statistics cover a
    /// different number of bits.
    fn merge_bit_stats_and_value_counts(&mut self, others: &[&Self]) -> (r: Result<(), AnalysisMergeError>)
        requires
            ({
                let b = bits_match_until(old(self).bit_counts@.len(), others@, 0);
                &&& forall|i: int| 0 <= i < old(self).bit_counts@.len() ==>
                    #[trigger] old(self).bit_counts@[i].zeros + zeros_total(others@, b, i) <= u64::MAX
                &&& forall|i: int| 0 <= i < old(self).bit_counts@.len() ==>
                    #[trigger] old(self).bit_counts@[i].ones + ones_total(others@, b, i) <= u64::MAX
                &&& forall|key: u64| #[trigger] value_total(old(self).value_counts@, others@, b, key) <= u64::MAX
            }),
        ensures
            ({
                let b = bits_match_until(old(self).bit_counts@.len(), others@, 0);
                &&& final(self).bit_counts@ == merged_bits(old(self).bit_counts@, others@, b)
                &&& final(self).value_counts@ == merged_values(old(self).value_counts@, others@, b)
                &&& final(self).name == old(self).name
                &&& final(self).full_path == old(self).full_path
                &&& final(self).depth == old(self).depth
                &&& final(self).count == old(self).count
                &&& final(self).lenbits == old(self).lenbits
                &&& final(self).lz_matches == old(self).lz_matches
                &&& final(self).bit_order == old(self).bit_order
                &&& final(self).estimated_size == old(self).estimated_size
                &&& final(self).zstd_size == old(self).zstd_size
                &&& final(self).original_size == old(self).original_size
                &&& r == if b < others@.len() {
                    Err::<(), AnalysisMergeError>(AnalysisMergeError::BitCountsDontMatch)
                } else {
                    Ok(())
                }
            }),
    {
        let ghost base_bits = self.bit_counts@;
        let ghost base_values = self.value_counts@;
        let ghost n = base_bits.len();
        let ghost b = bits_match_until(n, others@, 0);
        proof {
            lemma_bits_match_until_bound(n, others@, 0);
        }
        let mut k: usize = 0;
        while k < others.len()
            invariant
                k <= b <= others@.len(),
                base_bits == old(self).bit_counts@,
                base_values == old(self).value_counts@,
                b == bits_match_until(n, others@, 0),
                forall|j: int| 0 <= j < b ==> (#[trigger] others@[j]).bit_counts@.len() == n,
                b < others@.len() ==> others@[b as int].bit_counts@.len() != n,
                n == base_bits.len(),
                forall|i: int| 0 <= i < n ==> #[trigger] base_bits[i].zeros + zeros_total(others@, b, i) <= u64::MAX,
                forall|i: int| 0 <= i < n ==> #[trigger] base_bits[i].ones + ones_total(others@, b, i) <= u64::MAX,
                forall|key: u64| #[trigger] value_total(base_values, others@, b, key) <= u64::MAX,
                self.bit_counts@ == merged_bits(base_bits, others@, k as nat),
                self.value_counts@ == merged_values(base_values, others@, k as nat),
                self.name == old(self).name,
                self.full_path == old(self).full_path,
                self.depth == old(self).depth,
                self.count == old(self).count,
                self.lenbits == old(self).lenbits,
                self.lz_matches == old(self).lz_matches,
                self.bit_order == old(self).bit_order,
                self.estimated_size == old(self).estimated_size,
                self.zstd_size == old(self).zstd_size,
                self.original_size == old(self).original_size,
            decreases others@.len() - k,
        {
            let other = others[k];
            if self.bit_counts.len() != other.bit_counts.len() {
                assert(k == b);
                return Err(AnalysisMergeError::BitCountsDontMatch);
            }
            assert(k < b);
            proof {
                assert forall|i: int| 0 <= i < n implies
                    #[trigger] self.bit_counts@[i].zeros + other.bit_counts@[i].zeros <= u64::MAX
                    && self.bit_counts@[i].ones + other.bit_counts@[i].ones <= u64::MAX by {
                    lemma_totals_grow(base_values, others@, k as nat, b, i, 0);
                    lemma_totals_grow(base_values, others@, (k + 1) as nat, b, i, 0);
                    assert(zeros_total(others@, (k + 1) as nat, i) == zeros_total(others@, k as nat, i) + other.bit_counts@[i].zeros);
                    assert(ones_total(others@, (k + 1) as nat, i) == ones_total(others@, k as nat, i) + other.bit_counts@[i].ones);
                }
            }
            add_bit_stats(&mut self.bit_counts, &other.bit_counts);
            proof {
                assert forall|i: int| 0 <= i < n implies #[trigger] self.bit_counts@[i] == merged_bits(base_bits, others@, (k + 1) as nat)[i] by {
                    lemma_totals_grow(base_values, others@, k as nat, b, i, 0);
                    lemma_totals_grow(base_values, others@, (k + 1) as nat, b, i, 0);
                    assert(zeros_total(others@, (k + 1) as nat, i) == zeros_total(others@, k as nat, i) + other.bit_counts@[i].zeros);
                    assert(ones_total(others@, (k + 1) as nat, i) == ones_total(others@, k as nat, i) + other.bit_counts@[i].ones);
                }
                assert(self.bit_counts@ =~= merged_bits(base_bits, others@, (k + 1) as nat));
                assert forall|key: u64| count_of(self.value_counts@, key) + count_of(other.value_counts@, key) <= u64::MAX by {
                    lemma_totals_grow(base_values, others@, (k + 1) as nat, b, 0, key);
                    lemma_totals_grow(base_values, others@, k as nat, b, 0, key);
                    assert(value_total(base_values, others@, (k + 1) as nat, key) == value_total(base_values, others@, k as nat, key) + count_of(other.value_counts@, key));
                    lemma_merged_values(base_values, others@, k as nat, key);
                }
            }
            add_value_counts(&mut self.value_counts, &other.value_counts);
            assert(self.value_counts@ == merged_values(base_values, others@, (k + 1) as nat));
            k = k + 1;
        }
        Ok(())
    }

    /// Returns the parent path of the current field: the part of the full path
    /// before the last dot, or `None` at the root.
    pub fn parent_path(&self) -> (r: Option<&str>)
        ensures
            match r {
                None => forall|k: int| 0 <= k < self.full_path@.len() ==> self.full_path@[k] != '.',
                Some(p) => exists|k: int| #![trigger self.full_path@[k]]
                    0 <= k < self.full_path@.len() && self.full_path@[k] == '.'
                        && (forall|j: int| k < j < self.full_path@.len() ==> self.full_path@[j] != '.')
                        && p@ == self.full_path@.subrange(0, k),
            },
    {
        get_parent_path(self.full_path.as_str())
    }
}

/// A prefix's total is at most the whole total.
proof fn lemma_total_take_le(items: Seq<&FieldMetrics>, k: nat, f: spec_fn(&FieldMetrics) -> nat)
    requires
        k <= items.len(),
    ensures
        total(items.take(k as int), f) <= total(items, f),
    decreases items.len() - k,
{
    if k == items.len() {
        assert(items.take(k as int) =~= items);
    } else {
        lemma_total_prefix(items, (k + 1) as nat, f);
        lemma_total_take_le(items, (k + 1) as nat, f);
    }
}

/// A prefix total is the shorter prefix's total plus the last item.
proof fn lemma_total_prefix(items: Seq<&FieldMetrics>, k: nat, f: spec_fn(&FieldMetrics) -> nat)
    requires
        0 < k <= items.len(),
    ensures
        total(items.take(k as int), f) == total(items.take(k - 1), f) + f(items[k - 1]),
{
    assert(items.take(k as int).drop_last() =~= items.take(k - 1));
}

/// Adds the value counts of `from` into `into`, unless some sum overflows, in
/// which case it reports it (and `into` holds a partial sum).
fn try_add_value_counts(into: &mut HashMap<u64, u64>, from: &HashMap<u64, u64>) -> (ok: bool)
    ensures
        ok == forall|key: u64| count_of(old(into)@, key) + count_of(from@, key) <= u64::MAX,
        ok ==> final(into)@ == added_counts(old(into)@, from@),
{
    let ghost start = into@;
    let ghost mut seen: Set<u64> = Set::empty();
    for (value, count) in it: from.iter()
        invariant
            start == old(into)@,
            it.seq().len() == from@.dom().len(),
            forall|i: int| 0 <= i < it.seq().len() ==> from@.contains_key(*(#[trigger] it.seq()[i]).0)
                && from@[*it.seq()[i].0] == *it.seq()[i].1,
            forall|key: u64| #[trigger] from@.contains_key(key) ==> it.seq().contains((&key, &from@[key])),
            it.seq().no_duplicates(),
            forall|key: u64| #[trigger] seen.contains(key) <==> exists|i: int| 0 <= i < it.index() && *(#[trigger] it.seq()[i]).0 == key,
            forall|key: u64| #[trigger] from@.contains_key(key) ==> seen.contains(key)
                || exists|i: int| it.index() <= i < it.seq().len() && *(#[trigger] it.seq()[i]).0 == key,
            forall|key: u64| #[trigger] seen.contains(key) ==> count_of(start, key) + count_of(from@, key) <= u64::MAX,
            forall|key: u64| #[trigger] into@.contains_key(key) <==> start.contains_key(key) || seen.contains(key),
            forall|key: u64| #[trigger] into@.contains_key(key) ==> into@[key] == count_of(start, key) + (if seen.contains(key) { count_of(from@, key) } else { 0 }),
    {
        let ghost idx = it.index();
        assert(it.seq()[idx].0 == value && it.seq()[idx].1 == count);
        proof {
            if seen.contains(*value) {
                let i = choose|i: int| 0 <= i < idx && *(#[trigger] it.seq()[i]).0 == *value;
                assert(it.seq()[i] == it.seq()[idx]);
            }
        }
        let current: u64 = match into.get(value) {
            Some(c) => *c,
            None => 0,
        };
        assert(current == count_of(start, *value));
        match current.checked_add(*count) {
            Some(sum) => {
                into.insert(*value, sum);
            },
            None => {
                assert(!(count_of(start, *value) + count_of(from@, *value) <= u64::MAX));
                return false;
            },
        }
        proof {
            seen = seen.insert(*value);
        }
    }
    proof {
        assert forall|key: u64| count_of(start, key) + count_of(from@, key) <= u64::MAX by {
            if from@.contains_key(key) {
                assert(seen.contains(key));
            }
        }
        assert(into@ =~= added_counts(start, from@));
    }
    true
}

/// Whether `s` is ordered by count, largest first.
pub open spec fn by_count_descending(s: Seq<(u64, u64)>) -> bool {
    forall|i: int, j: int| 0 <= i < j < s.len() ==> (#[trigger] s[i]).1 >= (#[trigger] s[j]).1
}

/// Inserts `entry` into `out`, which is ordered by count largest first, after
/// every entry of at least its count.
fn insert_by_count(out: &mut Vec<(u64, u64)>, entry: (u64, u64))
    requires
        by_count_descending(old(out)@),
    ensures
        by_count_descending(final(out)@),
        exists|p: int| 0 <= p <= old(out)@.len() && final(out)@ == old(out)@.insert(p, entry),
{
    let mut p: usize = 0;
    while p < out.len() && out[p].1 >= entry.1
        invariant
            p <= out@.len(),
            forall|i: int| 0 <= i < p ==> (#[trigger] out@[i]).1 >= entry.1,
        decreases out@.len() - p,
    {
        p = p + 1;
    }
    let ghost before = out@;
    proof {
        if p < before.len() {
            assert forall|i: int| p <= i < before.len() implies (#[trigger] before[i]).1 < entry.1 by {
                if i > p {
                    assert(before[p as int].1 >= before[i].1);
                }
            }
        }
    }
    out.insert(p, entry);
    proof {
        let after = out@;
        assert forall|i: int, j: int| 0 <= i < j < after.len() implies (#[trigger] after[i]).1 >= (#[trigger] after[j]).1 by {
            let bi = if i < p { i } else if i == p { -1 } else { i - 1 };
            let bj = if j < p { j } else if j == p { -1 } else { j - 1 };
            if i != p && j != p {
                assert(after[i] == before[bi] && after[j] == before[bj]);
            } else if i == p {
                assert(after[j] == before[bj]);
            } else {
                assert(after[i] == before[bi]);
            }
        }
    }
}

/// Whether the sums of the scalar counts and sizes of `m` and `others` fit in `u64`.
pub open spec fn sums_fit(m: FieldMetrics, others: Seq<&FieldMetrics>) -> bool {
    &&& m.count + count_total(others) <= u64::MAX
    &&& m.lz_matches + lz_total(others) <= u64::MAX
    &&& m.estimated_size + estimated_total(others) <= u64::MAX
    &&& m.zstd_size + zstd_total(others) <= u64::MAX
    &&& m.original_size + original_total(others) <= u64::MAX
}

/// Whether the bit statistics of `m` and the first `b` of `others` sum within `u64`.
pub open spec fn bits_fit(m: FieldMetrics, others: Seq<&FieldMetrics>, b: nat) -> bool {
    &&& forall|i: int| 0 <= i < m.bit_counts@.len() ==> #[trigger] m.bit_counts@[i].zeros + zeros_total(others, b, i) <= u64::MAX
    &&& forall|i: int| 0 <= i < m.bit_counts@.len() ==> #[trigger] m.bit_counts@[i].ones + ones_total(others, b, i) <= u64::MAX
}

impl FieldMetrics {
    /// Whether the counts and sizes of `self` and `others` sum within `u64`.
    fn sums_fit_in(&self, others: &[&Self]) -> (ok: bool)
        ensures
            ok == sums_fit(*self, others@),
    {
        let ghost all = others@;
        let mut total_count = self.count;
        let mut total_lz_matches = self.lz_matches;
        let mut total_estimated_size = self.estimated_size;
        let mut total_zstd_size = self.zstd_size;
        let mut total_original_size = self.original_size;
        let mut k: usize = 0;
        while k < others.len()
            invariant
                k <= others@.len(),
                all == others@,
                total_count == self.count + count_total(all.take(k as int)),
                total_lz_matches == self.lz_matches + lz_total(all.take(k as int)),
                total_estimated_size == self.estimated_size + estimated_total(all.take(k as int)),
                total_zstd_size == self.zstd_size + zstd_total(all.take(k as int)),
                total_original_size == self.original_size + original_total(all.take(k as int)),
            decreases others@.len() - k,
        {
            let metrics = others[k];
            proof {
                lemma_total_prefix(all, (k + 1) as nat, |m: &FieldMetrics| m.count as nat);
                lemma_total_prefix(all, (k + 1) as nat, |m: &FieldMetrics| m.lz_matches as nat);
                lemma_total_prefix(all, (k + 1) as nat, |m: &FieldMetrics| m.estimated_size as nat);
                lemma_total_prefix(all, (k + 1) as nat, |m: &FieldMetrics| m.zstd_size as nat);
                lemma_total_prefix(all, (k + 1) as nat, |m: &FieldMetrics| m.original_size as nat);
                lemma_total_take_le(all, (k + 1) as nat, |m: &FieldMetrics| m.count as nat);
                lemma_total_take_le(all, (k + 1) as nat, |m: &FieldMetrics| m.lz_matches as nat);
                lemma_total_take_le(all, (k + 1) as nat, |m: &FieldMetrics| m.estimated_size as nat);
                lemma_total_take_le(all, (k + 1) as nat, |m: &FieldMetrics| m.zstd_size as nat);
                lemma_total_take_le(all, (k + 1) as nat, |m: &FieldMetrics| m.original_size as nat);
            }
            let c = total_count.checked_add(metrics.count);
            if c.is_none() {
                return false;
            }
            let l = total_lz_matches.checked_add(metrics.lz_matches);
            if l.is_none() {
                return false;
            }
            let e = total_estimated_size.checked_add(metrics.estimated_size);
            if e.is_none() {
                return false;
            }
            let z = total_zstd_size.checked_add(metrics.zstd_size);
            if z.is_none() {
                return false;
            }
            let o = total_original_size.checked_add(metrics.original_size);
            if o.is_none() {
                return false;
            }
            total_count = c.unwrap();
            total_lz_matches = l.unwrap();
            total_estimated_size = e.unwrap();
            total_zstd_size = z.unwrap();
            total_original_size = o.unwrap();
            k = k + 1;
        }
        proof {
            assert(all.take(k as int) =~= all);
        }
        true
    }

    /// Whether the bit statistics of `self` and the first `b` of `others`, each
    /// covering as many bits as `self`'s, sum within `u64`.
    fn bits_fit_in(&self, others: &[&Self], b: usize) -> (ok: bool)
        requires
            b <= others@.len(),
            forall|j: int| 0 <= j < b ==> (#[trigger] others@[j]).bit_counts@.len() == self.bit_counts@.len(),
        ensures
            ok == bits_fit(*self, others@, b as nat),
    {
        let n = self.bit_counts.len();
        let mut i: usize = 0;
        while i < n
            invariant
                i <= n,
                n == self.bit_counts@.len(),
                b <= others@.len(),
                forall|j: int| 0 <= j < b ==> (#[trigger] others@[j]).bit_counts@.len() == n,
                forall|x: int| 0 <= x < i ==> #[trigger] self.bit_counts@[x].zeros + zeros_total(others@, b as nat, x) <= u64::MAX,
                forall|x: int| 0 <= x < i ==> #[trigger] self.bit_counts@[x].ones + ones_total(others@, b as nat, x) <= u64::MAX,
            decreases n - i,
        {
            let mut zeros = self.bit_counts[i].zeros;
            let mut ones = self.bit_counts[i].ones;
            let mut j: usize = 0;
            while j < b
                invariant
                    j <= b <= others@.len(),
                    i < n == self.bit_counts@.len(),
                    forall|t: int| 0 <= t < b ==> (#[trigger] others@[t]).bit_counts@.len() == n,
                    zeros == self.bit_counts@[i as int].zeros + zeros_total(others@, j as nat, i as int),
                    ones == self.bit_counts@[i as int].ones + ones_total(others@, j as nat, i as int),
                decreases b - j,
            {
                let stats = others[j].bit_counts[i];
                proof {
                    lemma_totals_grow(Map::empty(), others@, (j + 1) as nat, b as nat, i as int, 0);
                    assert(zeros_total(others@, (j + 1) as nat, i as int) == zeros_total(others@, j as nat, i as int) + stats.zeros);
                    assert(ones_total(others@, (j + 1) as nat, i as int) == ones_total(others@, j as nat, i as int) + stats.ones);
                }
                let z = zeros.checked_add(stats.zeros);
                if z.is_none() {
                    return false;
                }
                let o = ones.checked_add(stats.ones);
                if o.is_none() {
                    return false;
                }
                zeros = z.unwrap();
                ones = o.unwrap();
                j = j + 1;
            }
            i = i + 1;
        }
        true
    }

    /// Whether the value counts of `self` and the first `b` of `others` sum within `u64`.
    fn values_fit_in(&self, others: &[&Self], b: usize) -> (ok: bool)
        requires
            b <= others@.len(),
        ensures
            ok == forall|key: u64| #[trigger] value_total(self.value_counts@, others@, b as nat, key) <= u64::MAX,
    {
        let mut acc = self.value_counts.clone();
        let mut j: usize = 0;
        while j < b
            invariant
                j <= b <= others@.len(),
                acc@ == merged_values(self.value_counts@, others@, j as nat),
                forall|key: u64| #[trigger] value_total(self.value_counts@, others@, j as nat, key) <= u64::MAX,
            decreases b - j,
        {
            let ghost before = acc@;
            proof {
                assert forall|key: u64| #[trigger] count_of(before, key) == value_total(self.value_counts@, others@, j as nat, key) by {
                    lemma_merged_values(self.value_counts@, others@, j as nat, key);
                }
            }
            if !try_add_value_counts(&mut acc, &others[j].value_counts) {
                proof {
                    let key = choose|key: u64| !(count_of(before, key) + count_of(others@[j as int].value_counts@, key) <= u64::MAX);
                    assert(count_of(before, key) == value_total(self.value_counts@, others@, j as nat, key));
                    lemma_totals_grow(self.value_counts@, others@, (j + 1) as nat, b as nat, 0, key);
                }
                return false;
            }
            proof {
                assert forall|key: u64| #[trigger] value_total(self.value_counts@, others@, (j + 1) as nat, key) <= u64::MAX by {
                    assert(count_of(before, key) == value_total(self.value_counts@, others@, j as nat, key));
                }
            }
            j = j + 1;
        }
        true
    }

    /// Whether [`FieldMetrics::try_merge_many`] can merge `others` into this
    /// one without a sum overflowing (a field length mismatch fails before any
    /// sum is taken).
    pub fn can_merge(&self, others: &[&Self]) -> (ok: bool)
        ensures
            ok == (others@.len() < usize::MAX && (first_length_mismatch(self.lenbits, others@, 0) is None
                ==> merge_fits(*self, others@))),
    {
        if others.len() == usize::MAX {
            return false;
        }
        let mut k: usize = 0;
        while k < others.len()
            invariant
                k <= others@.len(),
                others@.len() < usize::MAX,
                forall|j: int| 0 <= j < k ==> (#[trigger] others@[j]).lenbits == self.lenbits,
            decreases others@.len() - k,
        {
            if self.lenbits != others[k].lenbits {
                proof {
                    lemma_first_length_mismatch(self.lenbits, others@, k as nat);
                    assert(first_length_mismatch(self.lenbits, others@, k as nat) == Some(k as nat));
                }
                return true;
            }
            k = k + 1;
        }
        proof {
            lemma_first_length_mismatch(self.lenbits, others@, k as nat);
        }
        let n = self.bit_counts.len();
        let mut b: usize = 0;
        while b < others.len() && others[b].bit_counts.len() == n
            invariant
                b <= others@.len(),
                n == self.bit_counts@.len(),
                forall|j: int| 0 <= j < b ==> (#[trigger] others@[j]).bit_counts@.len() == n,
            decreases others@.len() - b,
        {
            b = b + 1;
        }
        proof {
            lemma_bits_match_until(n as nat, others@, b as nat);
        }
        self.sums_fit_in(others) && self.bits_fit_in(others, b) && self.values_fit_in(others, b)
    }

    /// Value counts, most frequent first: every value with its count, each
    /// value once. Values of equal count keep the order in which the map is
    /// walked.
    #[verifier::spinoff_prover]
    #[verifier::rlimit(30)]
    pub fn sorted_value_counts(&self) -> (r: Vec<(u64, u64)>)
        ensures
            r@.len() == self.value_counts@.len(),
            forall|i: int| 0 <= i < r@.len() ==> #[trigger] self.value_counts@.contains_key(r@[i].0)
                && self.value_counts@[r@[i].0] == r@[i].1,
            forall|key: u64| #[trigger] self.value_counts@.contains_key(key) ==> r@.contains((key, self.value_counts@[key])),
            forall|i: int, j: int| 0 <= i < j < r@.len() ==> (#[trigger] r@[i]).0 != (#[trigger] r@[j]).0,
            by_count_descending(r@),
    {
        let m = &self.value_counts;
        let mut out: Vec<(u64, u64)> = Vec::new();
        let ghost mut seen: Set<u64> = Set::empty();
        for (value, count) in it: m.iter()
            invariant
                it.seq().len() == m@.dom().len(),
                forall|i: int| 0 <= i < it.seq().len() ==> m@.contains_key(*(#[trigger] it.seq()[i]).0)
                    && m@[*it.seq()[i].0] == *it.seq()[i].1,
                forall|key: u64| #[trigger] m@.contains_key(key) ==> it.seq().contains((&key, &m@[key])),
                it.seq().no_duplicates(),
                forall|key: u64| #[trigger] seen.contains(key) <==> exists|i: int| 0 <= i < it.index() && *(#[trigger] it.seq()[i]).0 == key,
                forall|key: u64| #[trigger] m@.contains_key(key) ==> seen.contains(key)
                    || exists|i: int| it.index() <= i < it.seq().len() && *(#[trigger] it.seq()[i]).0 == key,
                out@.len() == seen.len(),
                seen.finite(),
                forall|i: int| 0 <= i < out@.len() ==> #[trigger] m@.contains_key(out@[i].0) && m@[out@[i].0] == out@[i].1
                    && seen.contains(out@[i].0),
                forall|key: u64| #[trigger] seen.contains(key) ==> m@.contains_key(key) && out@.contains((key, m@[key])),
                forall|i: int, j: int| 0 <= i < j < out@.len() ==> (#[trigger] out@[i]).0 != (#[trigger] out@[j]).0,
                by_count_descending(out@),
        {
            let ghost idx = it.index();
            assert(it.seq()[idx].0 == value && it.seq()[idx].1 == count);
            proof {
                if seen.contains(*value) {
                    let i = choose|i: int| 0 <= i < idx && *(#[trigger] it.seq()[i]).0 == *value;
                    assert(it.seq()[i] == it.seq()[idx]);
                }
            }
            let ghost before = out@;
            insert_by_count(&mut out, (*value, *count));
            proof {
                let p = choose|p: int| 0 <= p <= before.len() && out@ == before.insert(p, (*value, *count));
                let entry = (*value, *count);
                assert forall|i: int| 0 <= i < out@.len() implies #[trigger] out@[i] == (if i < p { before[i] } else if i == p { entry } else { before[i - 1] }) by {
                }
                assert forall|i: int, j: int| 0 <= i < j < out@.len() implies (#[trigger] out@[i]).0 != (#[trigger] out@[j]).0 by {
                    assert(out@[i] == (if i < p { before[i] } else if i == p { entry } else { before[i - 1] }));
                    assert(out@[j] == (if j < p { before[j] } else if j == p { entry } else { before[j - 1] }));
                }
                assert forall|i: int| 0 <= i < out@.len() implies #[trigger] m@.contains_key(out@[i].0) && m@[out@[i].0] == out@[i].1
                    && seen.insert(*value).contains(out@[i].0) by {
                    if i < p {
                        assert(out@[i] == before[i]);
                        assert(m@.contains_key(before[i].0));
                        assert(m@[before[i].0] == before[i].1);
                        assert(seen.contains(before[i].0));
                    } else if i == p {
                        assert(out@[i] == entry);
                        assert(m@.contains_key(*it.seq()[idx].0) && m@[*it.seq()[idx].0] == *it.seq()[idx].1);
                    } else {
                        assert(out@[i] == before[i - 1]);
                        assert(m@.contains_key(before[i - 1].0));
                        assert(m@[before[i - 1].0] == before[i - 1].1);
                        assert(seen.contains(before[i - 1].0));
                    }
                }
                assert forall|key: u64| #[trigger] seen.insert(*value).contains(key) implies m@.contains_key(key) && out@.contains((key, m@[key])) by {
                    if key == *value {
                        assert(out@[p] == entry);
                    } else {
                        assert(before.contains((key, m@[key])));
                        let i = choose|i: int| 0 <= i < before.len() && before[i] == (key, m@[key]);
                        if i < p {
                            assert(out@[i] == before[i]);
                        } else {
                            assert(out@[i + 1] == before[i]);
                        }
                    }
                }
                seen = seen.insert(*value);
            }
        }
        proof {
            assert(seen =~= m@.dom());
        }
        out
    }
}

/// The metrics of the data gathered in a field state: its counts and
/// statistics, the estimated LZ matches and zstandard size (at
/// `zstd_compression_level`) of its data, padded to a byte boundary, and that
/// data's size; no estimated size. The state's stream is padded to a byte boundary. `None` where
/// zstandard fails on the data.
pub fn field_metrics_of(state: &mut AnalyzerFieldState, zstd_compression_level: i32) -> (r: Option<FieldMetrics>)
    requires
        old(state).writer.wf(),
    ensures
        final(state).writer.wf(),
        final(state).writer.stream() == byte_aligned_stream(old(state).writer.stream()),
        final(state).writer.is_msb_first() == old(state).writer.is_msb_first(),
        final(state).name == old(state).name,
        final(state).full_path == old(state).full_path,
        final(state).depth == old(state).depth,
        final(state).count == old(state).count,
        final(state).lenbits == old(state).lenbits,
        final(state).bit_counts == old(state).bit_counts,
        final(state).bit_order == old(state).bit_order,
        final(state).value_counts == old(state).value_counts,
        match r {
            Some(m) => {
                &&& zstd_compressed(final(state).writer.bytes(), zstd_compression_level) is Some
                &&& m.zstd_size == zstd_compressed(final(state).writer.bytes(), zstd_compression_level).unwrap().len()
                &&& m.original_size == final(state).writer.bytes().len()
                &&& m.lz_matches == lz_match_estimate(final(state).writer.bytes())
                &&& m.estimated_size == 0
                &&& m.name == old(state).name
                &&& m.full_path == old(state).full_path
                &&& m.depth == old(state).depth
                &&& m.count == old(state).count
                &&& m.lenbits == old(state).lenbits
                &&& m.bit_counts@ == old(state).bit_counts@
                &&& m.bit_order == old(state).bit_order
                &&& m.value_counts@ == old(state).value_counts@
            },
            None => zstd_compressed(final(state).writer.bytes(), zstd_compression_level) is None,
        },
{
    let buffer = state.writer.get_writer_buffer();
    let zstd_size = match zstd_compress(buffer, zstd_compression_level) {
        Some(compressed) => compressed.len() as u64,
        None => {
            return None;
        },
    };
    let lz_matches = estimate_lz_matches(buffer) as u64;
    let original_size = buffer.len() as u64;
    let bit_counts = state.bit_counts.clone();
    proof {
        assert(bit_counts@ =~= state.bit_counts@);
    }
    Some(FieldMetrics {
        name: state.name.clone(),
        full_path: state.full_path.clone(),
        depth: state.depth,
        count: state.count,
        lenbits: state.lenbits,
        lz_matches,
        bit_counts,
        bit_order: state.bit_order,
        value_counts: state.value_counts.clone(),
        estimated_size: 0,
        zstd_size,
        original_size,
    })
}

} // verus!
