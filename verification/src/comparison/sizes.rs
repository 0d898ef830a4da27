//! The whole-number measurements of a group of bytes, their differences, and
//! their averages over many files. (The entropy measured beside them is a
//! floating-point value and is kept by the caller.)

use vstd::prelude::*;
use crate::utils::analyze_utils::{zstd_compress, zstd_compressed, estimate_lz_matches, lz_match_estimate};

verus! {

/// The whole-number measurements of a group of bytes.
#[derive(Debug, Clone, Copy, Default, PartialEq, Eq, Structural)]
pub struct GroupSizes {
    /// Number of total LZ matches
    pub lz_matches: u64,
    /// Size estimated by the size estimator function.
    pub estimated_size: u64,
    /// Size compressed by zstd.
    pub zstd_size: u64,
    /// Size of the original data.
    pub original_size: u64,
}

/// The differences between the measurements of two groups of bytes, usually a
/// result minus a baseline.
#[derive(Debug, Clone, Copy, Default, PartialEq, Eq, Structural)]
pub struct SizeDifference {
    /// The difference in LZ matches.
    pub lz_matches: i64,
    /// Difference in estimated size.
    pub estimated_size: i64,
    /// Difference in zstd compressed size.
    pub zstd_size: i64,
    /// Difference in original size.
    pub original_size: i64,
}

/// The sum of `f` over `items`.
pub open spec fn sizes_total(items: Seq<GroupSizes>, f: spec_fn(GroupSizes) -> int) -> int
    decreases items.len(),
{
    if items.len() == 0 {
        0
    } else {
        sizes_total(items.drop_last(), f) + f(items.last())
    }
}

/// The sum of `f` over `items`.
pub open spec fn differences_total(items: Seq<SizeDifference>, f: spec_fn(SizeDifference) -> int) -> int
    decreases items.len(),
{
    if items.len() == 0 {
        0
    } else {
        differences_total(items.drop_last(), f) + f(items.last())
    }
}

/// `a / n` rounded toward zero, as integer division does.
pub open spec fn div_toward_zero(a: int, n: int) -> int {
    if a >= 0 {
        a / n
    } else {
        -((-a) / n)
    }
}

/// Whether every running sum of `f` over `items`, taken in order, is an `i64`.
pub open spec fn running_sums_fit(items: Seq<SizeDifference>, f: spec_fn(SizeDifference) -> int) -> bool {
    forall|k: int| 0 <= k <= items.len() ==> i64::MIN <= #[trigger] differences_total(items.take(k), f) <= i64::MAX
}

/// The LZ matches of a group.
pub open spec fn lz_of(s: GroupSizes) -> int {
    s.lz_matches as int
}

/// The estimated size of a group.
pub open spec fn estimated_of(s: GroupSizes) -> int {
    s.estimated_size as int
}

/// The zstandard size of a group.
pub open spec fn zstd_of(s: GroupSizes) -> int {
    s.zstd_size as int
}

/// The original size of a group.
pub open spec fn original_of(s: GroupSizes) -> int {
    s.original_size as int
}

/// The difference in LZ matches.
pub open spec fn lz_diff(d: SizeDifference) -> int {
    d.lz_matches as int
}

/// The difference in estimated size.
pub open spec fn estimated_diff(d: SizeDifference) -> int {
    d.estimated_size as int
}

/// The difference in zstandard size.
pub open spec fn zstd_diff(d: SizeDifference) -> int {
    d.zstd_size as int
}

/// The difference in original size.
pub open spec fn original_diff(d: SizeDifference) -> int {
    d.original_size as int
}

/// A prefix's total is the shorter prefix's total plus the next item.
proof fn lemma_sizes_prefix(items: Seq<GroupSizes>, k: int, f: spec_fn(GroupSizes) -> int)
    requires
        0 <= k < items.len(),
    ensures
        sizes_total(items.take(k + 1), f) == sizes_total(items.take(k), f) + f(items[k]),
{
    assert(items.take(k + 1).drop_last() =~= items.take(k));
}

/// A prefix's total of non-negative values is at most the whole total.
proof fn lemma_sizes_prefix_le(items: Seq<GroupSizes>, k: int, f: spec_fn(GroupSizes) -> int)
    requires
        0 <= k <= items.len(),
        forall|s: GroupSizes| #[trigger] f(s) >= 0,
    ensures
        0 <= sizes_total(items.take(k), f) <= sizes_total(items, f),
    decreases items.len() - k,
{
    lemma_sizes_nonneg(items.take(k), f);
    if k == items.len() {
        assert(items.take(k) =~= items);
    } else {
        lemma_sizes_prefix(items, k, f);
        lemma_sizes_prefix_le(items, k + 1, f);
    }
}

/// A total of non-negative values is non-negative.
proof fn lemma_sizes_nonneg(items: Seq<GroupSizes>, f: spec_fn(GroupSizes) -> int)
    requires
        forall|s: GroupSizes| #[trigger] f(s) >= 0,
    ensures
        sizes_total(items, f) >= 0,
    decreases items.len(),
{
    if items.len() > 0 {
        lemma_sizes_nonneg(items.drop_last(), f);
    }
}

/// A prefix's total is the shorter prefix's total plus the next item.
proof fn lemma_differences_prefix(items: Seq<SizeDifference>, k: int, f: spec_fn(SizeDifference) -> int)
    requires
        0 <= k < items.len(),
    ensures
        differences_total(items.take(k + 1), f) == differences_total(items.take(k), f) + f(items[k]),
{
    assert(items.take(k + 1).drop_last() =~= items.take(k));
}

/// The number of LZ matches estimated in `bytes`.
pub fn lz_matches_of(bytes: &[u8]) -> (n: u64)
    ensures
        n as int == lz_match_estimate(bytes@) as int,
{
    estimate_lz_matches(bytes) as u64
}

/// The whole-number measurements of the group of bytes `bytes`: its estimated
/// LZ matches, the size `estimated_size` that the caller's estimator gave, its
/// size once compressed with zstandard at `level`, and its own size. `None`
/// where zstandard fails on the bytes.
pub fn group_sizes_of(bytes: &[u8], estimated_size: u64, level: i32) -> (r: Option<GroupSizes>)
    ensures
        match r {
            Some(s) => s.lz_matches as int == lz_match_estimate(bytes@) as int
                && zstd_compressed(bytes@, level) is Some
                && s.zstd_size == zstd_compressed(bytes@, level).unwrap().len()
                && s.original_size == bytes@.len()
                && s.estimated_size == estimated_size,
            None => zstd_compressed(bytes@, level) is None,
        },
{
    let zstd_size = match zstd_compress(bytes, level) {
        Some(compressed) => compressed.len() as u64,
        None => {
            return None;
        },
    };
    Some(GroupSizes {
        lz_matches: lz_matches_of(bytes),
        estimated_size,
        zstd_size,
        original_size: bytes.len() as u64,
    })
}

impl GroupSizes {
    /// The averages of the measurements of `items`, each rounded down: `None`
    /// for no items, or where a sum does not fit in `u64`.
    pub fn average(items: &[GroupSizes]) -> (r: Option<GroupSizes>)
        ensures
            match r {
                Some(avg) => {
                    let n = items@.len() as int;
                    &&& n > 0
                    &&& sizes_total(items@, |s: GroupSizes| lz_of(s)) <= u64::MAX
                    &&& sizes_total(items@, |s: GroupSizes| estimated_of(s)) <= u64::MAX
                    &&& sizes_total(items@, |s: GroupSizes| zstd_of(s)) <= u64::MAX
                    &&& sizes_total(items@, |s: GroupSizes| original_of(s)) <= u64::MAX
                    &&& avg.lz_matches == sizes_total(items@, |s: GroupSizes| lz_of(s)) / n
                    &&& avg.estimated_size == sizes_total(items@, |s: GroupSizes| estimated_of(s)) / n
                    &&& avg.zstd_size == sizes_total(items@, |s: GroupSizes| zstd_of(s)) / n
                    &&& avg.original_size == sizes_total(items@, |s: GroupSizes| original_of(s)) / n
                },
                None => items@.len() == 0
                    || sizes_total(items@, |s: GroupSizes| lz_of(s)) > u64::MAX
                    || sizes_total(items@, |s: GroupSizes| estimated_of(s)) > u64::MAX
                    || sizes_total(items@, |s: GroupSizes| zstd_of(s)) > u64::MAX
                    || sizes_total(items@, |s: GroupSizes| original_of(s)) > u64::MAX,
            },
    {
        if items.len() == 0 {
            return None;
        }
        let ghost all = items@;
        let ghost fl = |s: GroupSizes| lz_of(s);
        let ghost fe = |s: GroupSizes| estimated_of(s);
        let ghost fz = |s: GroupSizes| zstd_of(s);
        let ghost fo = |s: GroupSizes| original_of(s);
        let mut lz: u64 = 0;
        let mut est: u64 = 0;
        let mut zstd: u64 = 0;
        let mut orig: u64 = 0;
        let mut k: usize = 0;
        while k < items.len()
            invariant
                k <= all.len(),
                all == items@,
                fl == (|s: GroupSizes| lz_of(s)),
                fe == (|s: GroupSizes| estimated_of(s)),
                fz == (|s: GroupSizes| zstd_of(s)),
                fo == (|s: GroupSizes| original_of(s)),
                lz == sizes_total(all.take(k as int), fl),
                est == sizes_total(all.take(k as int), fe),
                zstd == sizes_total(all.take(k as int), fz),
                orig == sizes_total(all.take(k as int), fo),
            decreases all.len() - k,
        {
            let item = items[k];
            proof {
                lemma_sizes_prefix(all, k as int, fl);
                lemma_sizes_prefix(all, k as int, fe);
                lemma_sizes_prefix(all, k as int, fz);
                lemma_sizes_prefix(all, k as int, fo);
                lemma_sizes_prefix_le(all, k + 1, fl);
                lemma_sizes_prefix_le(all, k + 1, fe);
                lemma_sizes_prefix_le(all, k + 1, fz);
                lemma_sizes_prefix_le(all, k + 1, fo);
            }
            let l = lz.checked_add(item.lz_matches);
            let e = est.checked_add(item.estimated_size);
            let z = zstd.checked_add(item.zstd_size);
            let o = orig.checked_add(item.original_size);
            if l.is_none() || e.is_none() || z.is_none() || o.is_none() {
                return None;
            }
            lz = l.unwrap();
            est = e.unwrap();
            zstd = z.unwrap();
            orig = o.unwrap();
            k = k + 1;
        }
        proof {
            assert(all.take(k as int) =~= all);
        }
        let n = items.len() as u64;
        Some(GroupSizes { lz_matches: lz / n, estimated_size: est / n, zstd_size: zstd / n, original_size: orig / n })
    }
}

impl SizeDifference {
    /// `comparison` minus `baseline`, measurement by measurement, each taken as
    /// an `i64`: `None` where a difference does not fit in `i64`.
    pub fn between(baseline: &GroupSizes, comparison: &GroupSizes) -> (r: Option<SizeDifference>)
        ensures
            ({
                let dl = (comparison.lz_matches as i64) - (baseline.lz_matches as i64);
                let de = (comparison.estimated_size as i64) - (baseline.estimated_size as i64);
                let dz = (comparison.zstd_size as i64) - (baseline.zstd_size as i64);
                let dor = (comparison.original_size as i64) - (baseline.original_size as i64);
                let fits = |d: int| i64::MIN <= d <= i64::MAX;
                match r {
                    Some(d) => {
                        &&& d.lz_matches == dl
                        &&& d.estimated_size == de
                        &&& d.zstd_size == dz
                        &&& d.original_size == dor
                    },
                    None => !(fits(dl) && fits(de) && fits(dz) && fits(dor)),
                }
            }),
    {
        let l = (comparison.lz_matches as i64).checked_sub(baseline.lz_matches as i64);
        let e = (comparison.estimated_size as i64).checked_sub(baseline.estimated_size as i64);
        let z = (comparison.zstd_size as i64).checked_sub(baseline.zstd_size as i64);
        let o = (comparison.original_size as i64).checked_sub(baseline.original_size as i64);
        match (l, e, z, o) {
            (Some(l), Some(e), Some(z), Some(o)) => Some(SizeDifference {
                lz_matches: l,
                estimated_size: e,
                zstd_size: z,
                original_size: o,
            }),
            _ => None,
        }
    }

    /// Sets the difference in estimated size to `comparison` minus `baseline`,
    /// each taken as an `i64`, after the estimated sizes were computed anew.
    /// Returns `false`, changing nothing, where that difference does not fit in
    /// `i64`; the other differences are kept.
    pub fn update_estimated_size(&mut self, baseline: &GroupSizes, comparison: &GroupSizes) -> (fits: bool)
        ensures
            ({
                let de = (comparison.estimated_size as i64) - (baseline.estimated_size as i64);
                &&& fits == (i64::MIN <= de <= i64::MAX)
                &&& fits ==> final(self).estimated_size == de
                &&& !fits ==> final(self).estimated_size == old(self).estimated_size
                &&& final(self).lz_matches == old(self).lz_matches
                &&& final(self).zstd_size == old(self).zstd_size
                &&& final(self).original_size == old(self).original_size
            }),
    {
        match (comparison.estimated_size as i64).checked_sub(baseline.estimated_size as i64) {
            Some(d) => {
                self.estimated_size = d;
                true
            },
            None => false,
        }
    }

    /// The averages of the differences `items`, each rounded toward zero:
    /// `None` for no items, or where a running sum, taken in order, does not
    /// fit in `i64`.
    pub fn average(items: &[SizeDifference]) -> (r: Option<SizeDifference>)
        ensures
            match r {
                Some(avg) => {
                    let n = items@.len() as int;
                    &&& n > 0
                    &&& running_sums_fit(items@, |d: SizeDifference| lz_diff(d))
                    &&& running_sums_fit(items@, |d: SizeDifference| estimated_diff(d))
                    &&& running_sums_fit(items@, |d: SizeDifference| zstd_diff(d))
                    &&& running_sums_fit(items@, |d: SizeDifference| original_diff(d))
                    &&& avg.lz_matches == div_toward_zero(differences_total(items@, |d: SizeDifference| lz_diff(d)), n)
                    &&& avg.estimated_size == div_toward_zero(differences_total(items@, |d: SizeDifference| estimated_diff(d)), n)
                    &&& avg.zstd_size == div_toward_zero(differences_total(items@, |d: SizeDifference| zstd_diff(d)), n)
                    &&& avg.original_size == div_toward_zero(differences_total(items@, |d: SizeDifference| original_diff(d)), n)
                },
                None => items@.len() == 0
                    || !running_sums_fit(items@, |d: SizeDifference| lz_diff(d))
                    || !running_sums_fit(items@, |d: SizeDifference| estimated_diff(d))
                    || !running_sums_fit(items@, |d: SizeDifference| zstd_diff(d))
                    || !running_sums_fit(items@, |d: SizeDifference| original_diff(d)),
            },
    {
        if items.len() == 0 {
            return None;
        }
        let ghost all = items@;
        let ghost fl = |d: SizeDifference| lz_diff(d);
        let ghost fe = |d: SizeDifference| estimated_diff(d);
        let ghost fz = |d: SizeDifference| zstd_diff(d);
        let ghost fo = |d: SizeDifference| original_diff(d);
        let mut lz: i64 = 0;
        let mut est: i64 = 0;
        let mut zstd: i64 = 0;
        let mut orig: i64 = 0;
        let mut k: usize = 0;
        proof {
            assert(all.take(0) =~= Seq::<SizeDifference>::empty());
        }
        while k < items.len()
            invariant
                k <= all.len(),
                all == items@,
                fl == (|d: SizeDifference| lz_diff(d)),
                fe == (|d: SizeDifference| estimated_diff(d)),
                fz == (|d: SizeDifference| zstd_diff(d)),
                fo == (|d: SizeDifference| original_diff(d)),
                lz == differences_total(all.take(k as int), fl),
                est == differences_total(all.take(k as int), fe),
                zstd == differences_total(all.take(k as int), fz),
                orig == differences_total(all.take(k as int), fo),
                forall|j: int| 0 <= j <= k ==> i64::MIN <= #[trigger] differences_total(all.take(j), fl) <= i64::MAX,
                forall|j: int| 0 <= j <= k ==> i64::MIN <= #[trigger] differences_total(all.take(j), fe) <= i64::MAX,
                forall|j: int| 0 <= j <= k ==> i64::MIN <= #[trigger] differences_total(all.take(j), fz) <= i64::MAX,
                forall|j: int| 0 <= j <= k ==> i64::MIN <= #[trigger] differences_total(all.take(j), fo) <= i64::MAX,
            decreases all.len() - k,
        {
            let item = items[k];
            proof {
                lemma_differences_prefix(all, k as int, fl);
                lemma_differences_prefix(all, k as int, fe);
                lemma_differences_prefix(all, k as int, fz);
                lemma_differences_prefix(all, k as int, fo);
            }
            let l = lz.checked_add(item.lz_matches);
            let e = est.checked_add(item.estimated_size);
            let z = zstd.checked_add(item.zstd_size);
            let o = orig.checked_add(item.original_size);
            if l.is_none() || e.is_none() || z.is_none() || o.is_none() {
                proof {
                    let j = k + 1;
                    if l.is_none() {
                        assert(!(i64::MIN <= differences_total(all.take(j), fl) <= i64::MAX));
                    } else if e.is_none() {
                        assert(!(i64::MIN <= differences_total(all.take(j), fe) <= i64::MAX));
                    } else if z.is_none() {
                        assert(!(i64::MIN <= differences_total(all.take(j), fz) <= i64::MAX));
                    } else {
                        assert(!(i64::MIN <= differences_total(all.take(j), fo) <= i64::MAX));
                    }
                }
                return None;
            }
            lz = l.unwrap();
            est = e.unwrap();
            zstd = z.unwrap();
            orig = o.unwrap();
            k = k + 1;
        }
        proof {
            assert(all.take(k as int) =~= all);
        }
        let n = items.len();
        proof {
            assert(running_sums_fit(items@, fl));
            assert(running_sums_fit(items@, fe));
            assert(running_sums_fit(items@, fz));
            assert(running_sums_fit(items@, fo));
        }
        Some(SizeDifference {
            lz_matches: average_toward_zero(lz, n),
            estimated_size: average_toward_zero(est, n),
            zstd_size: average_toward_zero(zstd, n),
            original_size: average_toward_zero(orig, n),
        })
    }
}

/// `total / n`, rounded toward zero.
fn average_toward_zero(total: i64, n: usize) -> (r: i64)
    requires
        n > 0,
    ensures
        r == div_toward_zero(total as int, n as int),
{
    let t = total as i128;
    let m = n as i128;
    if t >= 0 {
        (t / m) as i64
    } else {
        let u = -t;
        let q = u / m;
        assert(0 <= q <= u) by (nonlinear_arith)
            requires
                q == u / m,
                m > 0,
                u > 0,
        ;
        (-q) as i64
    }
}

} // verus!
