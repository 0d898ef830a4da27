//! Why a bounded number of rounds is enough for a struct.
//!
//! Every round that writes a field value moves that field's reader further
//! into its data, and no round moves a reader back. So the rounds of a struct
//! stop within one round more than the bits its components read from.

use vstd::prelude::*;
use crate::schema::GroupComponent;
use super::{FieldData, data_index};
use super::write_struct::{component_field, component_ok, field_bits, struct_round, struct_rounds, rounds_end,
    fuel_sum, struct_fuel, first_refused, struct_component_output, lemma_first_refused};

verus! {

/// How far reader `i` is into its data: its position, capped at the data's length.
pub open spec fn progress_at(pos: Seq<nat>, data: Seq<FieldData>, i: int) -> nat {
    if pos[i] <= data[i].3.len() {
        pos[i]
    } else {
        data[i].3.len()
    }
}

/// The progress of the readers of the first `j` components, summed.
pub open spec fn spent(comps: Seq<GroupComponent>, data: Seq<FieldData>, pos: Seq<nat>, j: nat) -> nat
    decreases j,
{
    if j == 0 {
        0
    } else {
        spent(comps, data, pos, (j - 1) as nat) + match component_field(comps[j - 1]) {
            Some(nm) => progress_at(pos, data, data_index(data, nm)),
            None => 0,
        }
    }
}

/// Whether a struct accepts all its components.
pub open spec fn all_ok(comps: Seq<GroupComponent>, data: Seq<FieldData>) -> bool {
    forall|k: int| 0 <= k < comps.len() ==> component_ok(#[trigger] comps[k], data)
}

/// The reader index of an accepted component that reads a field is in range.
proof fn lemma_index_in_range(c: GroupComponent, data: Seq<FieldData>)
    requires
        component_ok(c, data),
    ensures
        component_field(c) matches Some(nm) ==> {
            let i = data_index(data, nm);
            0 <= i < data.len() && data[i].0 == nm
        },
{
}

/// In a round without error no reader loses progress, and a round that writes
/// a field value moves the reader of one of its components further.
proof fn lemma_round_progress(comps: Seq<GroupComponent>, data: Seq<FieldData>, mw: bool, pos: Seq<nat>, j: nat)
    requires
        all_ok(comps, data),
        pos.len() == data.len(),
        j <= comps.len(),
        struct_round(comps, data, mw, pos, j).3 is None,
    ensures
        ({
            let r = struct_round(comps, data, mw, pos, j);
            &&& r.1.len() == data.len()
            &&& forall|i: int| 0 <= i < data.len() ==> #[trigger] progress_at(r.1, data, i) >= progress_at(pos, data, i)
            &&& r.2 ==> exists|k: int| j <= k < comps.len() && (#[trigger] component_field(comps[k])) is Some && {
                let i = data_index(data, component_field(comps[k]).unwrap());
                progress_at(r.1, data, i) > progress_at(pos, data, i)
            }
        }),
    decreases comps.len() - j,
{
    if j >= comps.len() {
        return;
    }
    let c = comps[j as int];
    assert(component_ok(c, data));
    lemma_index_in_range(c, data);
    let next = match c {
        GroupComponent::Padding(_) => pos,
        GroupComponent::Field(f) => {
            let i = data_index(data, f.field@);
            let n = field_bits(f, data[i].1);
            if n == 0 || pos[i] + n <= data[i].3.len() {
                pos.update(i, pos[i] + n)
            } else {
                pos.update(i, data[i].3.len())
            }
        },
        GroupComponent::Skip(sk) => {
            let i = data_index(data, sk.field@);
            let target = (pos[i] + sk.bits) as nat;
            if target % 8 == 0 || target <= data[i].3.len() {
                pos.update(i, target)
            } else {
                pos.update(i, data[i].3.len())
            }
        },
        _ => pos,
    };
    let r = struct_round(comps, data, mw, pos, j);
    let r2 = struct_round(comps, data, mw, next, j + 1);
    // The rest of the round runs from `next`, and its positions are the round's.
    assert(r2.1 == r.1 && r2.3 == r.3);
    assert forall|i: int| 0 <= i < data.len() implies #[trigger] progress_at(next, data, i) >= progress_at(pos, data, i) by {
    }
    lemma_round_progress(comps, data, mw, next, j + 1);
    if r.2 {
        if r2.2 {
            let k = choose|k: int| j + 1 <= k < comps.len() && (#[trigger] component_field(comps[k])) is Some && {
                let i = data_index(data, component_field(comps[k]).unwrap());
                progress_at(r2.1, data, i) > progress_at(next, data, i)
            };
            let i = data_index(data, component_field(comps[k]).unwrap());
            assert(component_ok(comps[k], data));
            lemma_index_in_range(comps[k], data);
            assert(progress_at(next, data, i) >= progress_at(pos, data, i));
        } else {
            // Only a value of one or more bits, written here, sets the flag.
            let i = data_index(data, component_field(c).unwrap());
            assert(component_field(comps[j as int]) is Some);
            assert(progress_at(next, data, i) > progress_at(pos, data, i));
            assert(progress_at(r.1, data, i) >= progress_at(next, data, i));
        }
    }
}

/// Summed progress grows with the progress of each reader; it is unchanged only
/// where the progress of every reader of a component is; and it is at most the
/// bits the components read from.
proof fn lemma_spent_monotone(comps: Seq<GroupComponent>, data: Seq<FieldData>, p: Seq<nat>, q: Seq<nat>, j: nat)
    requires
        all_ok(comps, data),
        j <= comps.len(),
        p.len() == data.len(),
        q.len() == data.len(),
        forall|i: int| 0 <= i < data.len() ==> #[trigger] progress_at(q, data, i) >= progress_at(p, data, i),
    ensures
        spent(comps, data, q, j) >= spent(comps, data, p, j),
        spent(comps, data, p, j) <= fuel_sum(comps, data, j),
        spent(comps, data, q, j) == spent(comps, data, p, j) ==> forall|k: int| 0 <= k < j ==> {
            let i = data_index(data, component_field(#[trigger] comps[k]).unwrap());
            component_field(comps[k]) is Some ==> progress_at(q, data, i) == progress_at(p, data, i)
        },
    decreases j,
{
    if j > 0 {
        let c = comps[j - 1];
        assert(component_ok(c, data));
        lemma_index_in_range(c, data);
        lemma_spent_monotone(comps, data, p, q, (j - 1) as nat);
    }
}

/// Rounds from the positions `pos` stop within any number `f` of rounds that
/// makes up, with the progress already summed, one more than the bits the
/// components read from.
proof fn lemma_rounds_end_within(comps: Seq<GroupComponent>, data: Seq<FieldData>, mw: bool, pos: Seq<nat>, f: nat)
    requires
        all_ok(comps, data),
        pos.len() == data.len(),
        f + spent(comps, data, pos, comps.len()) >= fuel_sum(comps, data, comps.len()) + 1,
    ensures
        rounds_end(comps, data, mw, pos, f),
    decreases f,
{
    let n = comps.len();
    let r = struct_round(comps, data, mw, pos, 0);
    lemma_spent_monotone(comps, data, pos, pos, n);
    if r.3 is Some || !r.2 {
        return;
    }
    lemma_round_progress(comps, data, mw, pos, 0);
    lemma_spent_monotone(comps, data, pos, r.1, n);
    lemma_spent_monotone(comps, data, r.1, r.1, n);
    let k = choose|k: int| 0 <= k < comps.len() && (#[trigger] component_field(comps[k])) is Some && {
        let i = data_index(data, component_field(comps[k]).unwrap());
        progress_at(r.1, data, i) > progress_at(pos, data, i)
    };
    assert(spent(comps, data, r.1, n) > spent(comps, data, pos, n));
    lemma_rounds_end_within(comps, data, mw, r.1, (f - 1) as nat);
}

/// Two bounds within which the rounds stop give the same outcome.
proof fn lemma_rounds_agree(comps: Seq<GroupComponent>, data: Seq<FieldData>, mw: bool, pos: Seq<nat>, k: nat, f: nat)
    requires
        rounds_end(comps, data, mw, pos, k),
        rounds_end(comps, data, mw, pos, f),
    ensures
        struct_rounds(comps, data, mw, pos, k) == struct_rounds(comps, data, mw, pos, f),
    decreases k,
{
    let r = struct_round(comps, data, mw, pos, 0);
    if r.3 is None && r.2 {
        lemma_rounds_agree(comps, data, mw, r.1, (k - 1) as nat, (f - 1) as nat);
    }
}

/// The rounds of a struct that accepts all its components always stop: within
/// one more round than the bits its components read from, a round fails or
/// writes no field value.
pub proof fn lemma_struct_rounds_end(comps: Seq<GroupComponent>, data: Seq<FieldData>, mw: bool)
    requires
        first_refused(comps, data, 0) is None,
    ensures
        rounds_end(comps, data, mw, Seq::new(data.len(), |i: int| 0nat), struct_fuel(comps, data)),
{
    lemma_first_refused(comps, data, 0);
    lemma_rounds_end_within(comps, data, mw, Seq::new(data.len(), |i: int| 0nat), struct_fuel(comps, data));
}

/// A struct whose rounds stop within any number `k` of rounds gives the output
/// of those rounds: the bound on rounds never cuts a struct short.
pub proof fn lemma_struct_fuel_suffices(comps: Seq<GroupComponent>, data: Seq<FieldData>, mw: bool, k: nat)
    requires
        first_refused(comps, data, 0) is None,
        rounds_end(comps, data, mw, Seq::new(data.len(), |i: int| 0nat), k),
    ensures
        struct_component_output(comps, data, mw) == struct_rounds(comps, data, mw, Seq::new(data.len(), |i: int| 0nat), k),
{
    lemma_struct_rounds_end(comps, data, mw);
    lemma_rounds_agree(comps, data, mw, Seq::new(data.len(), |i: int| 0nat), k, struct_fuel(comps, data));
}

} // verus!
