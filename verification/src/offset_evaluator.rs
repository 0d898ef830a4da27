//! Picks the offset at which records start in a file, by testing the conditions
//! of each conditional offset of a schema against the file's first bytes.
//!
//! Conditions are read from the bytes most-significant bit first. A condition
//! whose `bit_order` is `Lsb` compares the mirrored bits with its value.

use vstd::prelude::*;
use crate::bits::{stream_bits, msb_value, spec_reverse_bits, BitReaderContainer, lemma_read_value_bound};
use crate::schema::{BitOrder, Condition, ConditionalOffset};
use crate::utils::analyze_utils::reverse_bits;
use vstd::arithmetic::power2::{pow2, lemma2_to64};

verus! {

/// Bit position, from the start of the data, at which a condition's bits begin.
pub open spec fn condition_start(c: Condition) -> nat {
    (c.byte_offset * 8 + c.bit_offset) as nat
}

/// Whether a condition's start position fits in a `u64`.
pub open spec fn condition_in_range(c: Condition) -> bool {
    c.byte_offset * 8 + c.bit_offset <= u64::MAX
}

/// Whether every condition of every conditional offset has an in-range start.
pub open spec fn offsets_in_range(offsets: Seq<ConditionalOffset>) -> bool {
    forall|i: int, j: int|
        0 <= i < offsets.len() && 0 <= j < offsets[i].conditions@.len()
            ==> condition_in_range(#[trigger] offsets[i].conditions@[j])
}

/// The value a condition compares: the bits read, mirrored for `Lsb`.
pub open spec fn condition_value(c: Condition, raw: nat) -> nat {
    if c.bit_order == BitOrder::Lsb {
        spec_reverse_bits(c.bits as nat, raw as u64)
    } else {
        raw
    }
}

/// Whether `data` satisfies the condition `c`.
///
/// The start position must be reachable (on a byte boundary, or within the
/// data), the bits asked for must be at most 64 and lie within the data, and
/// the value they hold must equal `c.value`. Zero bits hold the value 0.
pub open spec fn condition_holds(c: Condition, data: Seq<u8>) -> bool {
    let s = stream_bits(data, true);
    let start = condition_start(c);
    let n = c.bits as nat;
    &&& (start % 8 == 0 || start <= s.len())
    &&& n <= 64
    &&& (n == 0 || start + n <= s.len())
    &&& condition_value(c, if n == 0 { 0 } else { msb_value(s.subrange(start as int, (start + n) as int)) })
        == c.value
}

/// Whether `data` satisfies every condition of `o`.
pub open spec fn all_conditions_hold(o: ConditionalOffset, data: Seq<u8>) -> bool {
    forall|j: int| 0 <= j < o.conditions@.len() ==> condition_holds(#[trigger] o.conditions@[j], data)
}

/// Checks one condition against the data.
fn check_condition(condition: &Condition, data: &[u8]) -> (r: bool)
    requires
        condition_in_range(*condition),
        data@.len() * 8 <= u64::MAX,
    ensures
        r == condition_holds(*condition, data@),
{
    let mut reader = BitReaderContainer::new(data, true);
    let start_bit = condition.byte_offset * 8 + condition.bit_offset as u64;
    if reader.seek_bits(start_bit).is_err() {
        return false;
    }
    match reader.read(condition.bits as u32) {
        Ok(extracted) => {
            let value = if condition.bit_order == BitOrder::Lsb {
                reverse_bits(condition.bits as u32, extracted)
            } else {
                extracted
            };
            proof {
                let s = stream_bits(data@, true);
                let n = condition.bits as nat;
                if n > 0 {
                    lemma_read_value_bound(s.subrange(start_bit as int, start_bit + n), true);
                    lemma2_to64();
                    if n < 64 {
                        vstd::arithmetic::power2::lemma_pow2_strictly_increases(n, 64);
                    }
                }
            }
            value == condition.value
        },
        Err(_) => false,
    }
}

/// Whether the data satisfies every condition of `offset_def`.
pub fn matches_all_conditions(offset_def: &ConditionalOffset, data: &[u8]) -> (r: bool)
    requires
        forall|j: int| 0 <= j < offset_def.conditions@.len() ==> condition_in_range(#[trigger] offset_def.conditions@[j]),
        data@.len() * 8 <= u64::MAX,
    ensures
        r == all_conditions_hold(*offset_def, data@),
{
    let mut i: usize = 0;
    while i < offset_def.conditions.len()
        invariant
            i <= offset_def.conditions@.len(),
            forall|j: int| 0 <= j < offset_def.conditions@.len() ==> condition_in_range(#[trigger] offset_def.conditions@[j]),
            data@.len() * 8 <= u64::MAX,
            forall|j: int| 0 <= j < i ==> condition_holds(#[trigger] offset_def.conditions@[j], data@),
        decreases offset_def.conditions@.len() - i,
    {
        if !check_condition(&offset_def.conditions[i], data) {
            return false;
        }
        i = i + 1;
    }
    true
}

/// Returns the offset of the first conditional offset whose conditions all hold
/// on `data`, or `None` when none does.
pub fn try_evaluate_offset(conditional_offsets: &[ConditionalOffset], data: &[u8]) -> (r: Option<u64>)
    requires
        offsets_in_range(conditional_offsets@),
        data@.len() * 8 <= u64::MAX,
    ensures
        r matches Some(o) ==> exists|i: int|
            0 <= i < conditional_offsets@.len()
                && all_conditions_hold(#[trigger] conditional_offsets@[i], data@)
                && conditional_offsets@[i].offset == o
                && forall|k: int| 0 <= k < i ==> !all_conditions_hold(#[trigger] conditional_offsets@[k], data@),
        r is None <==> forall|i: int|
            0 <= i < conditional_offsets@.len() ==> !all_conditions_hold(#[trigger] conditional_offsets@[i], data@),
{
    let mut i: usize = 0;
    while i < conditional_offsets.len()
        invariant
            i <= conditional_offsets@.len(),
            offsets_in_range(conditional_offsets@),
            data@.len() * 8 <= u64::MAX,
            forall|k: int| 0 <= k < i ==> !all_conditions_hold(#[trigger] conditional_offsets@[k], data@),
        decreases conditional_offsets@.len() - i,
    {
        let offset_def = &conditional_offsets[i];
        assert forall|j: int| 0 <= j < offset_def.conditions@.len() implies condition_in_range(#[trigger] offset_def.conditions@[j]) by {
            assert(condition_in_range(conditional_offsets@[i as int].conditions@[j]));
        }
        if matches_all_conditions(offset_def, data) {
            return Some(offset_def.offset);
        }
        i = i + 1;
    }
    None
}

/// The number of bytes a condition needs from the start of the data: its byte
/// offset plus its bits rounded up to whole bytes.
pub open spec fn condition_bytes(c: Condition) -> nat {
    (c.byte_offset + (c.bits as nat + 7) / 8) as nat
}

/// The number of bytes at the start of a file that the conditions of
/// `conditional_offsets` read: the most that any condition needs (0 without
/// conditions), or `None` when that does not fit in a `u64`.
pub fn conditions_read_length(conditional_offsets: &[ConditionalOffset]) -> (r: Option<u64>)
    ensures
        match r {
            Some(n) => (forall|i: int, j: int|
                0 <= i < conditional_offsets@.len() && 0 <= j < conditional_offsets@[i].conditions@.len()
                    ==> condition_bytes(#[trigger] conditional_offsets@[i].conditions@[j]) <= n)
                && (n == 0 || exists|i: int, j: int|
                    0 <= i < conditional_offsets@.len() && 0 <= j < conditional_offsets@[i].conditions@.len()
                        && condition_bytes(#[trigger] conditional_offsets@[i].conditions@[j]) == n),
            None => exists|i: int, j: int|
                0 <= i < conditional_offsets@.len() && 0 <= j < conditional_offsets@[i].conditions@.len()
                    && condition_bytes(#[trigger] conditional_offsets@[i].conditions@[j]) > u64::MAX,
        },
{
    let mut max: u64 = 0;
    let mut i: usize = 0;
    while i < conditional_offsets.len()
        invariant
            i <= conditional_offsets@.len(),
            forall|a: int, b: int|
                0 <= a < i && 0 <= b < conditional_offsets@[a].conditions@.len()
                    ==> condition_bytes(#[trigger] conditional_offsets@[a].conditions@[b]) <= max,
            max == 0 || exists|a: int, b: int|
                0 <= a < i && 0 <= b < conditional_offsets@[a].conditions@.len()
                    && condition_bytes(#[trigger] conditional_offsets@[a].conditions@[b]) == max,
        decreases conditional_offsets@.len() - i,
    {
        let conds = &conditional_offsets[i].conditions;
        let mut j: usize = 0;
        while j < conds.len()
            invariant
                i < conditional_offsets@.len(),
                conds@ == conditional_offsets@[i as int].conditions@,
                j <= conds@.len(),
                forall|a: int, b: int|
                    0 <= a < i && 0 <= b < conditional_offsets@[a].conditions@.len()
                        ==> condition_bytes(#[trigger] conditional_offsets@[a].conditions@[b]) <= max,
                forall|b: int| 0 <= b < j ==> condition_bytes(#[trigger] conds@[b]) <= max,
                max == 0 || (exists|a: int, b: int|
                    0 <= a < i && 0 <= b < conditional_offsets@[a].conditions@.len()
                        && condition_bytes(#[trigger] conditional_offsets@[a].conditions@[b]) == max)
                    || (exists|b: int| 0 <= b < j && condition_bytes(#[trigger] conds@[b]) == max),
            decreases conds@.len() - j,
        {
            let c = &conds[j];
            let whole = (c.bits as u64 + 7) / 8;
            if c.byte_offset > u64::MAX - whole {
                assert(condition_bytes(conditional_offsets@[i as int].conditions@[j as int]) > u64::MAX);
                return None;
            }
            let need = c.byte_offset + whole;
            if need > max {
                max = need;
            }
            j = j + 1;
        }
        proof {
            assert forall|a: int, b: int|
                0 <= a < i + 1 && 0 <= b < conditional_offsets@[a].conditions@.len()
                    implies condition_bytes(#[trigger] conditional_offsets@[a].conditions@[b]) <= max by {
                if a == i {
                    assert(condition_bytes(conds@[b]) <= max);
                }
            }
            if max != 0 {
                if !(exists|a: int, b: int|
                    0 <= a < i && 0 <= b < conditional_offsets@[a].conditions@.len()
                        && condition_bytes(#[trigger] conditional_offsets@[a].conditions@[b]) == max) {
                    let b = choose|b: int| 0 <= b < j && condition_bytes(#[trigger] conds@[b]) == max;
                    assert(condition_bytes(conditional_offsets@[i as int].conditions@[b]) == max);
                }
            }
        }
        i = i + 1;
    }
    Some(max)
}

} // verus!
