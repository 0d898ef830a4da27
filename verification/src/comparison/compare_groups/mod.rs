//! Custom layouts of field data, defined in the schema, and their bytes.

use vstd::prelude::*;
use crate::analyzer::{AnalyzerFieldState, unique_names};
use crate::bits::{byte_aligned_stream, stream_bits};
use crate::schema::{CustomComparison, GroupComponent};
use generate_bytes::{GenerateBytesError, generate_group_bytes, entry_output, top_level_message, data_of, writers_wf, FieldData,
    states_kept, lemma_states_kept_trans};
use generate_bytes::write_struct::streams_fit;

pub mod generate_bytes;

verus! {

/// Describes an error that occurred while computing a group comparison.
#[derive(Debug)]
pub enum GroupComparisonError {
    /// Generating the bytes of a group failed.
    BytesGeneration(GenerateBytesError),
    /// The numbers of byte slices and of group names differ.
    InvalidItemCount { slices: usize, names: usize },
    /// The comparison is configured wrongly; the message says how.
    InvalidConfiguration(String),
}

/// Checks that a comparison has one name for each of its byte slices: `slices`
/// slices and `names` names.
pub fn check_item_counts(slices: usize, names: usize) -> (r: Result<(), GroupComparisonError>)
    ensures
        r is Ok <==> slices == names,
        r is Err ==> r == Err::<(), GroupComparisonError>(GroupComparisonError::InvalidItemCount { slices, names }),
{
    if slices != names {
        return Err(GroupComparisonError::InvalidItemCount { slices, names });
    }
    Ok(())
}

/// Whether the layout `comps` of the field data `data` is written completely.
pub open spec fn layout_ok(comps: Seq<GroupComponent>, data: Seq<FieldData>) -> bool {
    entry_output(comps, data, true).1 is None
}

/// The bits of the bytes of the layout `comps` of the field data `data`.
pub open spec fn layout_bits(comps: Seq<GroupComponent>, data: Seq<FieldData>) -> Seq<bool> {
    byte_aligned_stream(entry_output(comps, data, true).0)
}

/// Whether `e` is the error with which the layout `comps` of `data` fails.
pub open spec fn layout_error(comps: Seq<GroupComponent>, data: Seq<FieldData>, e: GenerateBytesError) -> bool {
    match entry_output(comps, data, true).1 {
        Some(Some(e2)) => e == e2,
        Some(None) => e matches GenerateBytesError::InvalidComponentType(msg) && msg@ == top_level_message(),
        None => false,
    }
}

/// The bytes of the baseline and of each compared layout of a custom comparison,
/// with the names of the compared layouts, in schema order.
///
/// When a layout fails, its error is returned with the layout that failed:
/// `None` for the baseline, `Some(k)` for the compared layout at `k`.
pub fn generate_comparison_bytes(
    comparison: &CustomComparison,
    field_states: &mut Vec<AnalyzerFieldState>,
) -> (r: Result<(Vec<u8>, Vec<(String, Vec<u8>)>), (Option<usize>, GenerateBytesError)>)
    requires
        unique_names(old(field_states)@),
        writers_wf(old(field_states)@),
        streams_fit(old(field_states)@),
    ensures
        unique_names(final(field_states)@),
        writers_wf(final(field_states)@),
        streams_fit(final(field_states)@),
        data_of(final(field_states)@) == data_of(old(field_states)@),
        states_kept(old(field_states)@, final(field_states)@),
        ({
            let data = data_of(old(field_states)@);
            let groups = comparison.comparisons@;
            if !layout_ok(comparison.baseline@, data) {
                r matches Err((None, e)) && layout_error(comparison.baseline@, data, e)
            } else if exists|k: int| 0 <= k < groups.len() && !layout_ok((#[trigger] groups[k]).1@, data) {
                exists|k: int| #![trigger groups[k]]
                    0 <= k < groups.len() && !layout_ok(groups[k].1@, data)
                        && (forall|j: int| 0 <= j < k ==> layout_ok((#[trigger] groups[j]).1@, data))
                        && (r matches Err((Some(kk), e)) && kk == k && layout_error(groups[k].1@, data, e))
            } else {
                r matches Ok((baseline, parts)) && {
                    &&& stream_bits(baseline@, true) == layout_bits(comparison.baseline@, data)
                    &&& parts@.len() == groups.len()
                    &&& forall|k: int| 0 <= k < groups.len() ==> {
                        &&& (#[trigger] parts@[k]).0 == groups[k].0
                        &&& stream_bits(parts@[k].1@, true) == layout_bits(groups[k].1@, data)
                    }
                }
            }
        }),
{
    let ghost data = data_of(field_states@);
    let baseline = match generate_group_bytes(comparison.baseline.as_slice(), field_states) {
        Ok(b) => b,
        Err(e) => {
            return Err((None, e));
        },
    };
    let mut parts: Vec<(String, Vec<u8>)> = Vec::new();
    let mut k: usize = 0;
    while k < comparison.comparisons.len()
        invariant
            k <= comparison.comparisons@.len(),
            unique_names(field_states@),
            writers_wf(field_states@),
            streams_fit(field_states@),
            data_of(field_states@) == data,
            data == data_of(old(field_states)@),
            states_kept(old(field_states)@, field_states@),
            layout_ok(comparison.baseline@, data),
            stream_bits(baseline@, true) == layout_bits(comparison.baseline@, data),
            parts@.len() == k,
            forall|j: int| 0 <= j < k ==> layout_ok((#[trigger] comparison.comparisons@[j]).1@, data),
            forall|j: int| 0 <= j < k ==> {
                &&& (#[trigger] parts@[j]).0 == comparison.comparisons@[j].0
                &&& stream_bits(parts@[j].1@, true) == layout_bits(comparison.comparisons@[j].1@, data)
            },
        decreases comparison.comparisons@.len() - k,
    {
        let components = comparison.comparisons[k].1.as_slice();
        let ghost prev = field_states@;
        let generated = generate_group_bytes(components, field_states);
        proof {
            lemma_states_kept_trans(old(field_states)@, prev, field_states@);
        }
        match generated {
            Ok(bytes) => {
                parts.push((comparison.comparisons[k].0.clone(), bytes));
            },
            Err(e) => {
                proof {
                    let groups = comparison.comparisons@;
                    assert(!layout_ok(groups[k as int].1@, data));
                    assert(exists|kk: int| 0 <= kk < groups.len() && !layout_ok((#[trigger] groups[kk]).1@, data));
                }
                return Err((Some(k), e));
            },
        }
        k = k + 1;
    }
    Ok((baseline, parts))
}

} // verus!
