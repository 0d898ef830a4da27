//! Results of an analysis: errors met while computing or merging them, how they
//! are printed, and the field data that split comparisons compare.

pub mod field_metrics;

use vstd::prelude::*;
use vstd::string::StrSliceExecFns;
use crate::analyzer::{AnalyzerFieldState, unique_names};
use crate::comparison::compare_groups::GroupComparisonError;
use crate::comparison::compare_groups::generate_bytes::{named, index_of_name, data_of, writers_wf, find_field, align_state,
    states_kept, lemma_states_kept_trans};

verus! {

/// Error type for when merging analysis results fails.
#[derive(Debug)]
pub enum AnalysisMergeError {
    /// The numbers of tracked bit positions differ.
    BitCountsDontMatch,
    /// The lengths in bits of a field differ.
    FieldLengthMismatch(u32, u32),
}

/// Error type for when something goes wrong when computing the final analysis results.
#[derive(Debug)]
pub enum ComputeAnalysisResultsError {
    /// A custom comparison failed.
    GroupComparisonError(GroupComparisonError),
}

/// How results are printed.
#[derive(Debug, Clone, Copy, PartialEq, Eq, Structural)]
pub enum PrintFormat {
    /// All statistics, field by field.
    Detailed,
    /// One line per field or comparison.
    Concise,
}

impl Default for PrintFormat {
    fn default() -> (r: Self)
        ensures
            r == PrintFormat::Detailed,
    {
        PrintFormat::Detailed
    }
}

/// The path of the parent of the field at `field_path`: the part before the last
/// `.`, or `None` for a field at the root.
pub fn get_parent_path(field_path: &str) -> (r: Option<&str>)
    ensures
        match r {
            None => forall|k: int| 0 <= k < field_path@.len() ==> field_path@[k] != '.',
            Some(p) => exists|k: int| #![trigger field_path@[k]]
                0 <= k < field_path@.len() && field_path@[k] == '.'
                    && (forall|j: int| k < j < field_path@.len() ==> field_path@[j] != '.')
                    && p@ == field_path@.subrange(0, k),
        },
{
    let n = field_path.unicode_len();
    let mut i: usize = n;
    while i > 0
        invariant
            n == field_path@.len(),
            i <= n,
            forall|j: int| i <= j < n ==> field_path@[j] != '.',
        decreases i,
    {
        if field_path.get_char(i - 1) == '.' {
            let parent = field_path.substring_char(0, i - 1);
            assert(field_path@[i - 1] == '.');
            return Some(parent);
        }
        i = i - 1;
    }
    None
}

/// The bytes of the fields named in `names`, in order, each field's buffer in
/// full; names without a state add nothing.
pub open spec fn split_bytes(states: Seq<AnalyzerFieldState>, names: Seq<String>) -> Seq<u8>
    decreases names.len(),
{
    if names.len() == 0 {
        Seq::empty()
    } else {
        let last = names.last();
        split_bytes(states, names.drop_last()) + if named(states, last@) {
            states[index_of_name(states, last@)].writer.bytes()
        } else {
            Seq::empty()
        }
    }
}

/// The bytes of one group of a split comparison: the buffers of the named fields,
/// concatenated in order, each first padded to a byte boundary; names without a
/// state are passed over.
pub fn split_group_bytes(field_states: &mut Vec<AnalyzerFieldState>, names: &Vec<String>) -> (r: Vec<u8>)
    requires
        unique_names(old(field_states)@),
        writers_wf(old(field_states)@),
    ensures
        unique_names(final(field_states)@),
        writers_wf(final(field_states)@),
        data_of(final(field_states)@) == data_of(old(field_states)@),
        states_kept(old(field_states)@, final(field_states)@),
        r@ == split_bytes(old(field_states)@, names@),
{
    let ghost olds = field_states@;
    let mut out: Vec<u8> = Vec::new();
    let mut k: usize = 0;
    while k < names.len()
        invariant
            k <= names@.len(),
            unique_names(field_states@),
            writers_wf(field_states@),
            data_of(field_states@) == data_of(olds),
            states_kept(olds, field_states@),
            olds == old(field_states)@,
            field_states@.len() == olds.len(),
            forall|i: int| 0 <= i < olds.len() ==> (#[trigger] field_states@[i]).writer.bytes() == olds[i].writer.bytes(),
            out@ == split_bytes(olds, names@.subrange(0, k as int)),
        decreases names@.len() - k,
    {
        let ghost prefix = names@.subrange(0, k + 1);
        assert(prefix.drop_last() =~= names@.subrange(0, k as int));
        assert(prefix.last() == names@[k as int]);
        proof {
            assert(named(field_states@, names@[k as int]@) == named(olds, names@[k as int]@));
        }
        match find_field(field_states, &names[k]) {
            Some(idx) => {
                let ghost before = field_states@;
                align_state(field_states, idx);
                proof {
                    assert(states_kept(before, field_states@));
                    lemma_states_kept_trans(olds, before, field_states@);
                }
                let bytes = field_states[idx].writer.as_bytes();
                out.extend_from_slice(bytes);
                proof {
                    let news = field_states@;
                    assert(index_of_name(before, names@[k as int]@) == index_of_name(olds, names@[k as int]@));
                    crate::bits::lemma_aligned_idempotent(before[idx as int].writer.stream());
                    assert forall|a: int, b: int| 0 <= a < b < news.len() implies (#[trigger] news[a]).name@ != (#[trigger] news[b]).name@ by {
                        assert(before[a].name@ != before[b].name@);
                    }
                    assert forall|a: int| 0 <= a < news.len() implies #[trigger] data_of(news)[a] == data_of(before)[a] by {
                        if a != idx {
                            assert(news[a] == before[a]);
                        }
                    }
                    assert(data_of(news) =~= data_of(before));
                    assert(out@ =~= split_bytes(olds, prefix));
                }
            },
            None => {
                assert(out@ =~= split_bytes(olds, prefix));
            },
        }
        k = k + 1;
    }
    assert(names@.subrange(0, k as int) =~= names@);
    out
}

/// The sum of the values at index `x` of the first `k` lists of `items`, over
/// the lists long enough to have one.
pub open spec fn column_total(items: Seq<Vec<u64>>, x: int, k: int) -> int
    decreases k,
{
    if k <= 0 {
        0
    } else {
        column_total(items, x, k - 1) + if x < items[k - 1]@.len() {
            items[k - 1]@[x] as int
        } else {
            0
        }
    }
}

/// Sums over more lists are no smaller.
proof fn lemma_column_total_grows(items: Seq<Vec<u64>>, x: int, a: int, b: int)
    requires
        0 <= a <= b,
    ensures
        column_total(items, x, a) <= column_total(items, x, b),
    decreases b - a,
{
    if a < b {
        lemma_column_total_grows(items, x, a, b - 1);
    }
}

/// The average LZ matches of each field over the results of several files, the
/// list of each file holding one count per field: for each field of the first
/// list, the sum of its counts over all lists divided by the number of lists,
/// rounded down. An empty first list gives an empty list. `None` for no lists,
/// and, where the first list is not empty, where a later list has more fields
/// than it, or where a sum does not fit in `u64`.
pub fn average_field_lz_matches(items: &[Vec<u64>]) -> (r: Option<Vec<u64>>)
    ensures
        match r {
            Some(avg) => {
                let n = items@.len() as int;
                let width = items@[0]@.len();
                &&& n > 0
                &&& avg@.len() == width
                &&& width > 0 ==> forall|k: int| 0 <= k < n ==> (#[trigger] items@[k])@.len() <= width
                &&& forall|x: int| 0 <= x < width ==> column_total(items@, x, n) <= u64::MAX
                &&& forall|x: int| 0 <= x < width ==> #[trigger] avg@[x] == column_total(items@, x, n) / n
            },
            None => items@.len() == 0 || (items@[0]@.len() > 0 && (
                (exists|k: int| 0 <= k < items@.len() && (#[trigger] items@[k])@.len() > items@[0]@.len())
                || (exists|x: int| 0 <= x < items@[0]@.len() && #[trigger] column_total(items@, x, items@.len() as int) > u64::MAX))),
        },
{
    if items.len() == 0 {
        return None;
    }
    let ghost all = items@;
    let n = items.len();
    let width = items[0].len();
    if width == 0 {
        return Some(Vec::new());
    }
    let mut sums: Vec<u64> = Vec::new();
    while sums.len() < width
        invariant
            sums@.len() <= width,
            forall|y: int| 0 <= y < sums@.len() ==> sums@[y] == 0,
        decreases width - sums@.len(),
    {
        sums.push(0);
    }
    let mut k: usize = 0;
    while k < n
        invariant
            all == items@,
            n == all.len(),
            width == all[0]@.len(),
            width > 0,
            k <= n,
            sums@.len() == width,
            forall|j: int| 0 <= j < k ==> (#[trigger] all[j])@.len() <= width,
            forall|y: int| 0 <= y < width ==> #[trigger] sums@[y] == column_total(all, y, k as int),
        decreases n - k,
    {
        let row = &items[k];
        if row.len() > width {
            return None;
        }
        let mut x: usize = 0;
        while x < row.len()
            invariant
                all == items@,
                n == all.len(),
                k < n,
                *row == all[k as int],
                width == all[0]@.len(),
                row@.len() <= width,
                x <= row@.len(),
                sums@.len() == width,
                forall|y: int| 0 <= y < x ==> #[trigger] sums@[y] == column_total(all, y, k + 1),
                forall|y: int| x <= y < width ==> #[trigger] sums@[y] == column_total(all, y, k as int),
            decreases row@.len() - x,
        {
            match sums[x].checked_add(row[x]) {
                Some(v) => {
                    sums.set(x, v);
                    assert(column_total(all, x as int, k + 1) == column_total(all, x as int, k as int) + row@[x as int]);
                },
                None => {
                    proof {
                        assert(column_total(all, x as int, k + 1) == column_total(all, x as int, k as int) + row@[x as int]);
                        lemma_column_total_grows(all, x as int, k + 1, n as int);
                        assert(column_total(items@, x as int, items@.len() as int) > u64::MAX);
                    }
                    return None;
                },
            }
            x = x + 1;
        }
        proof {
            assert forall|y: int| 0 <= y < width implies #[trigger] sums@[y] == column_total(all, y, k + 1) by {
                if y >= x {
                    assert(column_total(all, y, k + 1) == column_total(all, y, k as int));
                }
            }
        }
        k = k + 1;
    }
    let mut avg: Vec<u64> = Vec::new();
    let mut x: usize = 0;
    while x < width
        invariant
            all == items@,
            n == all.len(),
            n > 0,
            sums@.len() == width,
            x <= width,
            avg@.len() == x,
            forall|y: int| 0 <= y < width ==> #[trigger] sums@[y] == column_total(all, y, n as int),
            forall|y: int| 0 <= y < x ==> #[trigger] avg@[y] == column_total(all, y, n as int) / (n as int),
        decreases width - x,
    {
        avg.push(sums[x] / (n as u64));
        x = x + 1;
    }
    assert forall|y: int| 0 <= y < width implies column_total(items@, y, items@.len() as int) <= u64::MAX by {
        assert(sums@[y] == column_total(all, y, n as int));
    }
    Some(avg)
}

} // verus!
