//! Lays out structs: rounds of field values, skips and padding, repeated until
//! a round writes no field value.

use vstd::prelude::*;
use crate::analyzer::{AnalyzerFieldState, unique_names};
use crate::bits::{byte_aligned_stream, read_value, value_bits, BitReaderContainer, BitWriterContainer, BitIoError,
    lemma_read_value_bound, lemma_aligned_idempotent, lemma_value_bits_of_read};
use crate::schema::{GroupComponent, GroupComponentField, GroupComponentPadding, GroupComponentStruct};
use super::{GenerateBytesError, named, index_of_name, aligned_state, states_kept, writers_wf, find_field, align_state,
    FieldData, field_data, data_of, data_named, data_index};
use super::write_array::result_of;
use super::struct_fuel::lemma_struct_rounds_end;
use vstd::arithmetic::power2::{pow2, lemma2_to64, lemma_pow2_strictly_increases};

verus! {

/// The name of the field a struct component reads from, if it reads one.
pub open spec fn component_field(c: GroupComponent) -> Option<Seq<char>> {
    match c {
        GroupComponent::Field(f) => Some(f.field@),
        GroupComponent::Skip(sk) => Some(sk.field@),
        _ => None,
    }
}

/// Whether a struct accepts a component: padding, or a field value or skip of a
/// field that has a state.
pub open spec fn component_ok(c: GroupComponent, data: Seq<FieldData>) -> bool {
    match c {
        GroupComponent::Padding(_) => true,
        GroupComponent::Field(f) => data_named(data, f.field@),
        GroupComponent::Skip(sk) => data_named(data, sk.field@),
        _ => false,
    }
}

/// The error for a component that a struct does not accept.
pub open spec fn component_error(c: GroupComponent) -> GenerateBytesError {
    match c {
        GroupComponent::Field(f) => GenerateBytesError::FieldNotFound(f.field),
        GroupComponent::Skip(sk) => GenerateBytesError::FieldNotFound(sk.field),
        _ => GenerateBytesError::UnsupportedNestedComponent,
    }
}

/// Whether a component before index `j` reads from the field `name`.
pub open spec fn read_before(comps: Seq<GroupComponent>, j: int, name: Seq<char>) -> bool {
    exists|k: int| 0 <= k < j && component_field(#[trigger] comps[k]) == Some(name)
}

/// Whether the padding value can be written in the padding's bits: at most 8
/// bits, and a value below `2^bits`.
pub open spec fn padding_fits(p: GroupComponentPadding) -> bool {
    p.bits <= 8 && (p.bits < 8 ==> p.value < pow2(p.bits as nat))
}

/// The number of bits a field component reads: its own, or the field's length.
pub open spec fn field_bits(f: GroupComponentField, lenbits: u32) -> nat {
    if f.bits == 0 {
        lenbits as nat
    } else {
        f.bits as nat
    }
}

/// Every field's data, padded to bytes, holds at most `u64::MAX` bits.
pub open spec fn streams_fit(states: Seq<AnalyzerFieldState>) -> bool {
    forall|i: int| 0 <= i < states.len() ==> byte_aligned_stream((#[trigger] states[i]).writer.stream()).len() <= u64::MAX
}

/// The slot recorded for component `k` is the index of the state of the field it
/// reads, if it reads one.
spec fn slot_names(comps: Seq<GroupComponent>, slots: Seq<usize>, states: Seq<AnalyzerFieldState>, k: int) -> bool {
    match component_field(comps[k]) {
        Some(nm) => slots[k] < states.len() && slots[k] == index_of_name(states, nm) && states[slots[k] as int].name@ == nm,
        None => true,
    }
}

/// The state at the slot of component `k` holds an aligned stream that fits.
spec fn slot_aligned(comps: Seq<GroupComponent>, slots: Seq<usize>, states: Seq<AnalyzerFieldState>, k: int) -> bool {
    match component_field(comps[k]) {
        Some(nm) => byte_aligned_stream(states[slots[k] as int].writer.stream()) == states[slots[k] as int].writer.stream()
            && states[slots[k] as int].writer.stream().len() <= u64::MAX,
        None => true,
    }
}

/// The outcome of a round from component `j` on, given the positions `pos` of
/// the fields' readers: the bits written, the positions reached, whether a
/// field value of one or more bits was written, and the error that stops the
/// round, if any.
///
/// Padding writes its value. A field value is read at the field's position and
/// written; when too few bits are left, the field is exhausted and its position
/// moves to the end. A skip moves the position ahead; when it cannot (a
/// position past the end not on a byte boundary), the position moves to the end.
/// Neither padding nor a skip counts as writing a value.
pub open spec fn struct_round(
    comps: Seq<GroupComponent>,
    data: Seq<FieldData>,
    mw: bool,
    pos: Seq<nat>,
    j: nat,
) -> (Seq<bool>, Seq<nat>, bool, Option<GenerateBytesError>)
    decreases comps.len() - j,
{
    if j >= comps.len() {
        (Seq::empty(), pos, false, None)
    } else {
        match comps[j as int] {
            GroupComponent::Padding(p) => if !padding_fits(p) {
                (Seq::empty(), pos, false, Some(GenerateBytesError::WriteError { bits: p.bits as u32 }))
            } else {
                let r = struct_round(comps, data, mw, pos, j + 1);
                (value_bits(p.value as u64, p.bits as nat, mw) + r.0, r.1, r.2, r.3)
            },
            GroupComponent::Field(f) => {
                let i = data_index(data, f.field@);
                let bits = data[i].3;
                let n = field_bits(f, data[i].1);
                let p = pos[i];
                if n > 64 {
                    (Seq::empty(), pos, false, Some(GenerateBytesError::ReadError { bits: n as u32 }))
                } else if n == 0 || p + n <= bits.len() {
                    let v = if n == 0 { 0 } else { read_value(bits.subrange(p as int, (p + n) as int), data[i].2) };
                    let r = struct_round(comps, data, mw, pos.update(i, p + n), j + 1);
                    (value_bits(v as u64, n, mw) + r.0, r.1, n > 0 || r.2, r.3)
                } else {
                    struct_round(comps, data, mw, pos.update(i, bits.len()), j + 1)
                }
            },
            GroupComponent::Skip(sk) => {
                let i = data_index(data, sk.field@);
                let bits = data[i].3;
                let target = (pos[i] + sk.bits) as nat;
                if target > u64::MAX {
                    (Seq::empty(), pos, false, Some(GenerateBytesError::SeekError { bits: sk.bits }))
                } else if target % 8 == 0 || target <= bits.len() {
                    struct_round(comps, data, mw, pos.update(i, target), j + 1)
                } else {
                    struct_round(comps, data, mw, pos.update(i, bits.len()), j + 1)
                }
            },
            _ => (Seq::empty(), pos, false, Some(GenerateBytesError::UnsupportedNestedComponent)),
        }
    }
}

/// The bits written by at most `fuel` rounds from the positions `pos`, and the
/// error that stops them, if any. Rounds go on while each writes a field value;
/// the first round that writes none (padding and skips aside) is the last.
pub open spec fn struct_rounds(
    comps: Seq<GroupComponent>,
    data: Seq<FieldData>,
    mw: bool,
    pos: Seq<nat>,
    fuel: nat,
) -> (Seq<bool>, Option<GenerateBytesError>)
    decreases fuel,
{
    if fuel == 0 {
        (Seq::empty(), None)
    } else {
        let r = struct_round(comps, data, mw, pos, 0);
        if r.3 is Some {
            (r.0, r.3)
        } else if !r.2 {
            (r.0, None)
        } else {
            let rest = struct_rounds(comps, data, mw, r.1, (fuel - 1) as nat);
            (r.0 + rest.0, rest.1)
        }
    }
}

/// Whether the rounds from the positions `pos` stop within `fuel` rounds: by an
/// error, or by a round that writes no field value.
pub open spec fn rounds_end(
    comps: Seq<GroupComponent>,
    data: Seq<FieldData>,
    mw: bool,
    pos: Seq<nat>,
    fuel: nat,
) -> bool
    decreases fuel,
{
    if fuel == 0 {
        false
    } else {
        let r = struct_round(comps, data, mw, pos, 0);
        r.3 is Some || !r.2 || rounds_end(comps, data, mw, r.1, (fuel - 1) as nat)
    }
}

/// The number of bits of field data that the first `j` components read from.
pub open spec fn fuel_sum(comps: Seq<GroupComponent>, data: Seq<FieldData>, j: nat) -> nat
    decreases j,
{
    if j == 0 {
        0
    } else {
        fuel_sum(comps, data, (j - 1) as nat) + match component_field(comps[j - 1]) {
            Some(nm) => data[data_index(data, nm)].3.len(),
            None => 0,
        }
    }
}

/// A bound on the rounds of a struct: one more than the bits its components
/// read from. Every round but the last writes a field value and so moves a
/// reader further into its data.
pub open spec fn struct_fuel(comps: Seq<GroupComponent>, data: Seq<FieldData>) -> nat {
    1 + fuel_sum(comps, data, comps.len())
}

/// The index of the first component from `j` on that a struct refuses, if any.
pub open spec fn first_refused(comps: Seq<GroupComponent>, data: Seq<FieldData>, j: nat) -> Option<nat>
    decreases comps.len() - j,
{
    if j >= comps.len() {
        None
    } else if !component_ok(comps[j as int], data) {
        Some(j)
    } else {
        first_refused(comps, data, j + 1)
    }
}

/// The bits a struct writes over the field data `data`, in the order `mw`, and
/// the error that stops it, if any: the error of the first refused component, or
/// else the outcome of its rounds.
pub open spec fn struct_component_output(comps: Seq<GroupComponent>, data: Seq<FieldData>, mw: bool) -> (Seq<bool>, Option<GenerateBytesError>) {
    match first_refused(comps, data, 0) {
        Some(j) => (Seq::empty(), Some(component_error(comps[j as int]))),
        None => struct_rounds(comps, data, mw, Seq::new(data.len(), |i: int| 0nat), struct_fuel(comps, data)),
    }
}

/// `first_refused` finds the first component that is not accepted.
pub(crate) proof fn lemma_first_refused(comps: Seq<GroupComponent>, data: Seq<FieldData>, j: nat)
    requires
        j <= comps.len(),
        forall|k: int| 0 <= k < j ==> component_ok(#[trigger] comps[k], data),
    ensures
        first_refused(comps, data, j) matches Some(f) ==> f < comps.len() && !component_ok(comps[f as int], data)
            && forall|k: int| 0 <= k < f ==> component_ok(#[trigger] comps[k], data),
        first_refused(comps, data, j) is None ==> forall|k: int| 0 <= k < comps.len() ==> component_ok(#[trigger] comps[k], data),
    decreases comps.len() - j,
{
    if j < comps.len() && component_ok(comps[j as int], data) {
        lemma_first_refused(comps, data, j + 1);
    }
}

/// `new` is `old` with the streams of the fields read before component `j`
/// padded to a byte boundary.
pub open spec fn aligned_before(
    old: Seq<AnalyzerFieldState>,
    new: Seq<AnalyzerFieldState>,
    comps: Seq<GroupComponent>,
    j: int,
) -> bool {
    &&& new.len() == old.len()
    &&& forall|i: int| 0 <= i < old.len() ==> {
        &&& read_before(comps, j, (#[trigger] old[i]).name@) ==> aligned_state(old[i], new[i])
        &&& !read_before(comps, j, old[i].name@) ==> new[i] == old[i]
    }
}

/// States with the streams of some fields padded keep everything else.
pub(crate) proof fn lemma_aligned_before_keeps(
    old: Seq<AnalyzerFieldState>,
    new: Seq<AnalyzerFieldState>,
    comps: Seq<GroupComponent>,
    j: int,
)
    requires
        aligned_before(old, new, comps, j),
    ensures
        states_kept(old, new),
{
    assert forall|i: int| 0 <= i < old.len() implies #[trigger] new[i] == old[i] || aligned_state(old[i], new[i]) by {
        if read_before(comps, j, old[i].name@) {
        }
    }
}

/// Positions from which every reader can move: within its data, or on a byte boundary.
spec fn positions_ok(pos: Seq<u64>, states: Seq<AnalyzerFieldState>) -> bool {
    &&& pos.len() == states.len()
    &&& forall|i: int| 0 <= i < pos.len() ==> #[trigger] pos[i] <= states[i].writer.stream().len() || pos[i] % 8 == 0
}

spec fn pos_view(pos: Seq<u64>) -> Seq<nat> {
    Seq::new(pos.len(), |i: int| pos[i] as nat)
}

/// The round outcome `r`, after the bits `out` were written and with `any`
/// telling whether something was read before.
spec fn after(out: Seq<bool>, any: bool, r: (Seq<bool>, Seq<nat>, bool, Option<GenerateBytesError>))
    -> (Seq<bool>, Seq<nat>, bool, Option<GenerateBytesError>) {
    (out + r.0, r.1, any || r.2, r.3)
}

/// Writes the struct `strct` of the field data kept in `field_states` to `writer`.
///
/// First every component is checked, in order: arrays and structs are refused,
/// and the field of a value or skip must have a state, whose stream is then
/// padded to a byte boundary. Then rounds run over the components, each field
/// read from the start of its data, until a round writes no field value.
#[verifier::rlimit(40)]
pub fn write_struct(
    field_states: &mut Vec<AnalyzerFieldState>,
    writer: &mut BitWriterContainer,
    strct: &GroupComponentStruct,
) -> (r: Result<(), GenerateBytesError>)
    requires
        unique_names(old(field_states)@),
        writers_wf(old(field_states)@),
        streams_fit(old(field_states)@),
        old(writer).wf(),
    ensures
        final(writer).wf(),
        final(writer).is_msb_first() == old(writer).is_msb_first(),
        unique_names(final(field_states)@),
        writers_wf(final(field_states)@),
        streams_fit(final(field_states)@),
        data_of(final(field_states)@) == data_of(old(field_states)@),
        ({
            let (out, err) = struct_component_output(strct.fields@, data_of(old(field_states)@), old(writer).is_msb_first());
            &&& final(writer).stream() == old(writer).stream() + out
            &&& r == result_of(err)
        }),
        ({
            let comps = strct.fields@;
            let olds = old(field_states)@;
            let news = final(field_states)@;
            let data = data_of(olds);
            if exists|j: int| 0 <= j < comps.len() && !component_ok(#[trigger] comps[j], data) {
                exists|j: int| #![trigger comps[j]]
                    0 <= j < comps.len() && !component_ok(comps[j], data)
                        && (forall|k: int| 0 <= k < j ==> component_ok(#[trigger] comps[k], data))
                        && r == Err::<(), GenerateBytesError>(component_error(comps[j]))
                        && final(writer).stream() == old(writer).stream()
                        && aligned_before(olds, news, comps, j)
            } else {
                let (out, err) = struct_rounds(comps, data, old(writer).is_msb_first(),
                    Seq::new(olds.len(), |i: int| 0nat), struct_fuel(comps, data));
                &&& aligned_before(olds, news, comps, comps.len() as int)
                &&& final(writer).stream() == old(writer).stream() + out
                &&& r == result_of(err)
            }
        }),
{
    let comps = &strct.fields;
    let ghost olds = field_states@;
    let mut slots: Vec<usize> = Vec::new();
    let mut j: usize = 0;
    while j < comps.len()
        invariant
            j <= comps@.len(),
            comps@ == strct.fields@,
            slots@.len() == j,
            olds == old(field_states)@,
            unique_names(olds),
            writers_wf(olds),
            streams_fit(olds),
            unique_names(field_states@),
            writers_wf(field_states@),
            streams_fit(field_states@),
            *writer == *old(writer),
            old(writer).wf(),
            aligned_before(olds, field_states@, comps@, j as int),
            forall|i: int| 0 <= i < olds.len() ==> (#[trigger] field_states@[i]).name == olds[i].name,
            forall|k: int| 0 <= k < j ==> component_ok(#[trigger] comps@[k], data_of(olds)),
            forall|k: int| 0 <= k < j ==> #[trigger] slot_names(comps@, slots@, olds, k),
        decreases comps@.len() - j,
    {
        let name: &String = match &comps[j] {
            GroupComponent::Array(_) | GroupComponent::Struct(_) => {
                proof {
                    assert(!component_ok(comps@[j as int], data_of(olds)));
                    assert(component_error(comps@[j as int]) == GenerateBytesError::UnsupportedNestedComponent);
                    assert(exists|jj: int| 0 <= jj < comps@.len() && !component_ok(#[trigger] comps@[jj], data_of(olds)));
                    assert(writer.stream() == old(writer).stream());
                    assert(aligned_before(olds, field_states@, comps@, j as int));
                }
                let r = Err(GenerateBytesError::UnsupportedNestedComponent);
                assert(r == Err::<(), GenerateBytesError>(component_error(comps@[j as int])));
                proof {
                    lemma_first_failure(strct.fields@, data_of(olds), j as int);
                    lemma_data_same(olds, field_states@, comps@, j as int);
                }
                return r;
            },
            GroupComponent::Field(f) => &f.field,
            GroupComponent::Skip(sk) => &sk.field,
            GroupComponent::Padding(_) => {
                let ghost slots_before = slots@;
                slots.push(0);
                proof {
                    assert forall|k: int| 0 <= k < j + 1 implies #[trigger] slot_names(comps@, slots@, olds, k) by {
                        if k < j {
                            assert(slot_names(comps@, slots_before, olds, k));
                            assert(slots@[k] == slots_before[k]);
                        }
                    }
                    assert forall|i: int| 0 <= i < olds.len() implies
                        read_before(comps@, j + 1, (#[trigger] olds[i]).name@) == read_before(comps@, j as int, olds[i].name@) by {
                        if read_before(comps@, j + 1, olds[i].name@) {
                            let k = choose|k: int| 0 <= k < j + 1 && component_field(#[trigger] comps@[k]) == Some(olds[i].name@);
                            assert(k != j);
                        }
                    }
                }
                j = j + 1;
                continue;
            },
        };
        assert(component_field(comps@[j as int]) == Some(name@));
        proof {
            assert(names_equal(olds, field_states@)) by {
                assert forall|i: int| 0 <= i < olds.len() implies (#[trigger] field_states@[i]).name@ == olds[i].name@ by {}
            }
        }
        let idx = match find_field(field_states, name) {
            None => {
                proof {
                    lemma_named_same(olds, field_states@, name@);
                    assert(!component_ok(comps@[j as int], data_of(olds)));
                    assert(exists|jj: int| 0 <= jj < comps@.len() && !component_ok(#[trigger] comps@[jj], data_of(olds)));
                }
                let r = Err(GenerateBytesError::FieldNotFound(name.clone()));
                assert(r == Err::<(), GenerateBytesError>(component_error(comps@[j as int])));
                proof {
                    lemma_first_failure(strct.fields@, data_of(olds), j as int);
                    lemma_data_same(olds, field_states@, comps@, j as int);
                }
                return r;
            },
            Some(i) => i,
        };
        proof {
            lemma_named_same(olds, field_states@, name@);
            lemma_index_of_name_same(olds, field_states@, name@);
        }
        let ghost before = field_states@;
        align_state(field_states, idx);
        let ghost slots_before = slots@;
        slots.push(idx);
        proof {
            assert forall|k: int| 0 <= k < j + 1 implies #[trigger] slot_names(comps@, slots@, olds, k) by {
                if k < j {
                    assert(slot_names(comps@, slots_before, olds, k));
                    assert(slots@[k] == slots_before[k]);
                }
            }
            lemma_named_same(olds, before, name@);
            lemma_setup_step(olds, before, field_states@, comps@, j as int, idx as int);
        }
        j = j + 1;
    }
    proof {
        assert(forall|jj: int| 0 <= jj < comps@.len() ==> component_ok(#[trigger] comps@[jj], data_of(olds)));
        lemma_first_refused(comps@, data_of(olds), 0);
        lemma_data_same(olds, field_states@, comps@, comps@.len() as int);
    }
    write_struct_rounds(field_states, writer, comps, &slots, Ghost(olds))
}

/// Aligning the state of the field read by component `j` extends the aligned
/// states from the components before `j` to those before `j + 1`.
proof fn lemma_setup_step(
    olds: Seq<AnalyzerFieldState>,
    before: Seq<AnalyzerFieldState>,
    news: Seq<AnalyzerFieldState>,
    comps: Seq<GroupComponent>,
    j: int,
    idx: int,
)
    requires
        0 <= j < comps.len(),
        0 <= idx < olds.len(),
        unique_names(olds),
        streams_fit(olds),
        writers_wf(before),
        streams_fit(before),
        aligned_before(olds, before, comps, j),
        component_field(comps[j]) == Some(olds[idx].name@),
        news.len() == before.len(),
        aligned_state(before[idx], news[idx]),
        forall|a: int| 0 <= a < before.len() && a != idx ==> news[a] == before[a],
        forall|i: int| 0 <= i < olds.len() ==> (#[trigger] before[i]).name == olds[i].name,
    ensures
        unique_names(news),
        writers_wf(news),
        streams_fit(news),
        aligned_before(olds, news, comps, j + 1),
        forall|i: int| 0 <= i < olds.len() ==> (#[trigger] news[i]).name == olds[i].name,
{
    lemma_aligned_idempotent(olds[idx].writer.stream());
    assert forall|a: int, b: int| 0 <= a < b < news.len() implies (#[trigger] news[a]).name@ != (#[trigger] news[b]).name@ by {
        assert(olds[a].name@ != olds[b].name@);
        if a != idx {
            assert(news[a] == before[a]);
        }
        if b != idx {
            assert(news[b] == before[b]);
        }
    }
    assert forall|a: int| 0 <= a < news.len() implies (#[trigger] news[a]).writer.wf() by {
        if a != idx {
            assert(news[a] == before[a]);
        }
    }
    assert forall|a: int| 0 <= a < news.len() implies byte_aligned_stream((#[trigger] news[a]).writer.stream()).len() <= u64::MAX by {
        if a != idx {
            assert(news[a] == before[a]);
        } else {
            lemma_aligned_idempotent(before[a].writer.stream());
        }
    }
    assert forall|i: int| 0 <= i < olds.len() implies (#[trigger] news[i]).name == olds[i].name by {
        if i != idx {
            assert(news[i] == before[i]);
        }
    }
    assert forall|i: int| 0 <= i < olds.len() implies {
        &&& read_before(comps, j + 1, (#[trigger] olds[i]).name@) ==> aligned_state(olds[i], news[i])
        &&& !read_before(comps, j + 1, olds[i].name@) ==> news[i] == olds[i]
    } by {
        if i == idx {
            assert(read_before(comps, j + 1, olds[i].name@)) by {
                assert(component_field(comps[j]) == Some(olds[i].name@));
            }
            if read_before(comps, j, olds[i].name@) {
                assert(aligned_state(olds[i], before[i]));
            } else {
                assert(before[i] == olds[i]);
            }
        } else {
            assert(news[i] == before[i]);
            if read_before(comps, j + 1, olds[i].name@) {
                let k = choose|k: int| 0 <= k < j + 1 && component_field(#[trigger] comps[k]) == Some(olds[i].name@);
                if k == j {
                    assert(olds[i].name@ == olds[idx].name@);
                    if i < idx {
                        assert(olds[i].name@ != olds[idx].name@);
                    } else {
                        assert(olds[idx].name@ != olds[i].name@);
                    }
                }
                assert(read_before(comps, j, olds[i].name@));
            } else {
                assert(!read_before(comps, j, olds[i].name@)) by {
                    if read_before(comps, j, olds[i].name@) {
                        let k = choose|k: int| 0 <= k < j && component_field(#[trigger] comps[k]) == Some(olds[i].name@);
                        assert(read_before(comps, j + 1, olds[i].name@));
                    }
                }
            }
        }
    }
}

/// A first refused component at `j` witnesses the refusal clause of `write_struct`.
proof fn lemma_first_failure(comps: Seq<GroupComponent>, data: Seq<FieldData>, j: int)
    requires
        0 <= j < comps.len(),
        !component_ok(comps[j], data),
        forall|k: int| 0 <= k < j ==> component_ok(#[trigger] comps[k], data),
    ensures
        exists|jj: int| 0 <= jj < comps.len() && !component_ok(#[trigger] comps[jj], data),
        exists|jj: int| #![trigger comps[jj]]
            0 <= jj < comps.len() && !component_ok(comps[jj], data)
                && (forall|k: int| 0 <= k < jj ==> component_ok(#[trigger] comps[k], data))
                && jj == j,
        first_refused(comps, data, 0) == Some(j as nat),
{
    lemma_first_refused(comps, data, 0);
    let f = first_refused(comps, data, 0);
    if f is None {
        assert(component_ok(comps[j], data));
    } else {
        let ff = f->0;
        if ff < j {
            assert(component_ok(comps[ff as int], data));
        } else if ff > j {
            assert(component_ok(comps[j], data));
        }
    }
}

/// Aligning streams does not change what the layouts read.
proof fn lemma_data_same(olds: Seq<AnalyzerFieldState>, news: Seq<AnalyzerFieldState>, comps: Seq<GroupComponent>, j: int)
    requires
        aligned_before(olds, news, comps, j),
    ensures
        data_of(news) == data_of(olds),
{
    assert forall|i: int| 0 <= i < olds.len() implies #[trigger] data_of(news)[i] == data_of(olds)[i] by {
        lemma_aligned_idempotent(olds[i].writer.stream());
        if read_before(comps, j, olds[i].name@) {
            assert(aligned_state(olds[i], news[i]));
        } else {
            assert(news[i] == olds[i]);
        }
    }
    assert(data_of(news) =~= data_of(olds));
}

/// Two lists of states with the same names at the same places.
spec fn names_equal(a: Seq<AnalyzerFieldState>, b: Seq<AnalyzerFieldState>) -> bool {
    &&& a.len() == b.len()
    &&& forall|i: int| 0 <= i < a.len() ==> (#[trigger] b[i]).name@ == a[i].name@
}

proof fn lemma_named_same(a: Seq<AnalyzerFieldState>, b: Seq<AnalyzerFieldState>, name: Seq<char>)
    requires
        names_equal(a, b),
    ensures
        named(a, name) == named(b, name),
{
    let da = data_of(a);
    let db = data_of(b);
    if named(a, name) {
        let i = choose|i: int| 0 <= i < da.len() && (#[trigger] da[i]).0 == name;
        assert(db[i].0 == name);
    }
    if named(b, name) {
        let i = choose|i: int| 0 <= i < db.len() && (#[trigger] db[i]).0 == name;
        assert(da[i].0 == name);
    }
}

proof fn lemma_index_of_name_same(a: Seq<AnalyzerFieldState>, b: Seq<AnalyzerFieldState>, name: Seq<char>)
    requires
        names_equal(a, b),
        unique_names(a),
        named(a, name),
    ensures
        index_of_name(a, name) == index_of_name(b, name),
        0 <= index_of_name(a, name) < a.len(),
        a[index_of_name(a, name)].name@ == name,
{
    lemma_named_same(a, b, name);
    let i = index_of_name(a, name);
    let k = index_of_name(b, name);
    assert(a[k].name@ == name);
    if i < k {
        assert(a[i].name@ != a[k].name@);
    } else if k < i {
        assert(a[k].name@ != a[i].name@);
    }
}

/// Runs the rounds of a struct whose components were all accepted, the fields
/// they read being those at `slots`.
#[verifier::rlimit(80)]
fn write_struct_rounds(
    field_states: &mut Vec<AnalyzerFieldState>,
    writer: &mut BitWriterContainer,
    comps: &Vec<GroupComponent>,
    slots: &Vec<usize>,
    Ghost(olds): Ghost<Seq<AnalyzerFieldState>>,
) -> (r: Result<(), GenerateBytesError>)
    requires
        unique_names(olds),
        unique_names(old(field_states)@),
        writers_wf(old(field_states)@),
        streams_fit(old(field_states)@),
        old(writer).wf(),
        aligned_before(olds, old(field_states)@, comps@, comps@.len() as int),
        forall|i: int| 0 <= i < olds.len() ==> (#[trigger] old(field_states)@[i]).name == olds[i].name,
        forall|k: int| 0 <= k < comps@.len() ==> component_ok(#[trigger] comps@[k], data_of(olds)),
        slots@.len() == comps@.len(),
        forall|k: int| 0 <= k < comps@.len() ==> #[trigger] slot_names(comps@, slots@, olds, k),
    ensures
        final(writer).wf(),
        final(writer).is_msb_first() == old(writer).is_msb_first(),
        final(field_states)@ == old(field_states)@,
        ({
            let data = data_of(olds);
            let (out, err) = struct_rounds(comps@, data, old(writer).is_msb_first(),
                Seq::new(olds.len(), |i: int| 0nat), struct_fuel(comps@, data));
            &&& final(writer).stream() == old(writer).stream() + out
            &&& r == result_of(err)
        }),
{
    let states: &Vec<AnalyzerFieldState> = field_states;
    let ghost news = states@;
    let ghost dd = data_of(olds);
    let ghost mw = writer.is_msb_first();
    let ghost w0 = writer.stream();
    proof {
        assert(names_equal(olds, news)) by {
            assert forall|i: int| 0 <= i < olds.len() implies (#[trigger] news[i]).name@ == olds[i].name@ by {}
        }
        lemma_data_same(olds, news, comps@, comps@.len() as int);
        // Every slot names the state of its field in the aligned states too, and
        // that state's stream is already aligned.
        assert forall|k: int| 0 <= k < comps@.len() implies #[trigger] slot_names(comps@, slots@, news, k) by {
            assert(slot_names(comps@, slots@, olds, k));
            if let Some(nm) = component_field(comps@[k]) {
                lemma_index_of_name_same(olds, news, nm);
            }
        }
        assert forall|k: int| 0 <= k < comps@.len() implies #[trigger] slot_aligned(comps@, slots@, news, k) by {
            assert(slot_names(comps@, slots@, olds, k));
            if let Some(nm) = component_field(comps@[k]) {
                let i = slots@[k] as int;
                assert(read_before(comps@, comps@.len() as int, olds[i].name@));
                lemma_aligned_idempotent(olds[i].writer.stream());
            }
        }
    }
    let ghost start = Seq::new(olds.len(), |i: int| 0nat);
    let mut positions: Vec<u64> = Vec::new();
    while positions.len() < states.len()
        invariant
            positions@.len() <= news.len(),
            states@ == news,
            forall|i: int| 0 <= i < positions@.len() ==> positions@[i] == 0,
        decreases news.len() - positions@.len(),
    {
        positions.push(0);
    }
    assert(pos_view(positions@) =~= start);
    let ghost fuel = struct_fuel(comps@, dd);
    let ghost total = struct_rounds(comps@, dd, mw, start, fuel);
    let ghost mut racc: Seq<bool> = Seq::empty();
    let ghost mut left: nat = fuel;
    assert(total.0 =~= racc + total.0);
    proof {
        lemma_first_refused(comps@, dd, 0);
        lemma_struct_rounds_end(comps@, dd, mw);
    }
    loop
        invariant
            states@ == news,
            dd == data_of(news),
            dd == data_of(olds),
            writers_wf(news),
            writer.wf(),
            writer.is_msb_first() == mw,
            mw == old(writer).is_msb_first(),
            w0 == old(writer).stream(),
            writer.stream() == w0 + racc,
            positions_ok(positions@, news),
            slots@.len() == comps@.len(),
            forall|k: int| 0 <= k < comps@.len() ==> component_ok(#[trigger] comps@[k], dd),
            forall|k: int| 0 <= k < comps@.len() ==> #[trigger] slot_names(comps@, slots@, news, k),
            forall|k: int| 0 <= k < comps@.len() ==> #[trigger] slot_aligned(comps@, slots@, news, k),
            total == struct_rounds(comps@, dd, mw, start, fuel),
            start == Seq::new(olds.len(), |i: int| 0nat),
            fuel == struct_fuel(comps@, dd),
            news == old(field_states)@,
            rounds_end(comps@, dd, mw, pos_view(positions@), left),
            total.0 == racc + struct_rounds(comps@, dd, mw, pos_view(positions@), left).0,
            total.1 == struct_rounds(comps@, dd, mw, pos_view(positions@), left).1,
        decreases left,
    {
        let ghost p0 = pos_view(positions@);
        let ghost whole = struct_round(comps@, dd, mw, p0, 0);
        let ghost mut acc: Seq<bool> = Seq::empty();
        let mut any = false;
        let mut j: usize = 0;
        assert(whole == after(acc, any, whole)) by {
            assert(acc + whole.0 =~= whole.0);
        }
        while j < comps.len()
            invariant
                j <= comps@.len(),
                states@ == news,
                dd == data_of(news),
                dd == data_of(olds),
                writers_wf(news),
                writer.wf(),
                writer.is_msb_first() == mw,
                writer.stream() == w0 + racc + acc,
                positions_ok(positions@, news),
                slots@.len() == comps@.len(),
                forall|k: int| 0 <= k < comps@.len() ==> component_ok(#[trigger] comps@[k], dd),
                forall|k: int| 0 <= k < comps@.len() ==> #[trigger] slot_names(comps@, slots@, news, k),
                forall|k: int| 0 <= k < comps@.len() ==> #[trigger] slot_aligned(comps@, slots@, news, k),
                whole == struct_round(comps@, dd, mw, p0, 0),
                rounds_end(comps@, dd, mw, p0, left),
                mw == old(writer).is_msb_first(),
                w0 == old(writer).stream(),
                total == struct_rounds(comps@, dd, mw, start, fuel as nat),
                start == Seq::new(olds.len(), |i: int| 0nat),
                fuel == struct_fuel(comps@, dd),
                news == old(field_states)@,
                total.0 == racc + struct_rounds(comps@, dd, mw, p0, left).0,
                total.1 == struct_rounds(comps@, dd, mw, p0, left).1,
                whole == after(acc, any, struct_round(comps@, dd, mw, pos_view(positions@), j as nat)),
            decreases comps@.len() - j,
        {
            let ghost pj = pos_view(positions@);
            let ghost rest_here = struct_round(comps@, dd, mw, pj, j as nat);
            match &comps[j] {
                GroupComponent::Array(_) | GroupComponent::Struct(_) => {
                    assert(false);
                },
                GroupComponent::Padding(p) => {
                    let fits = p.bits <= 8 && (p.bits == 8 || (p.value as u64) < (1u64 << (p.bits as u64)));
                    proof {
                        if p.bits < 8 {
                            lemma2_to64();
                            vstd::bits::lemma_u64_shl_is_mul(1, p.bits as u64);
                        }
                    }
                    if !fits {
                        proof {
                            assert(!padding_fits(*p));
                            assert(rest_here.0 =~= Seq::<bool>::empty());
                            assert(acc + Seq::<bool>::empty() =~= acc);
                            assert(whole.0 == acc);
                            assert(whole.3 is Some);
                        }
                        let ghost rs = struct_rounds(comps@, dd, mw, p0, left);
                        assert(rs == (whole.0, whole.3));
                        return Err(GenerateBytesError::WriteError { bits: p.bits as u32 });
                    }
                    let ghost out = value_bits(p.value as u64, p.bits as nat, mw);
                    writer.write(p.bits as u32, p.value as u64);
                    proof {
                        let r = struct_round(comps@, dd, mw, pj, (j + 1) as nat);
                        assert(rest_here == (out + r.0, r.1, r.2, r.3));
                        assert(acc + (out + r.0) =~= (acc + out) + r.0);
                        assert(w0 + racc + acc + out =~= w0 + racc + (acc + out));
                        acc = acc + out;
                    }
                },
                GroupComponent::Field(f) => {
                    assert(slot_names(comps@, slots@, news, j as int));
                    assert(slot_aligned(comps@, slots@, news, j as int));
                    let idx = slots[j];
                    let n: u32 = if f.bits == 0 { states[idx].lenbits } else { f.bits };
                    let m = states[idx].writer.msb_first();
                    let buf = states[idx].writer.as_bytes();
                    let ghost data = news[idx as int].writer.stream();
                    assert(data == dd[idx as int].3);
                    let mut rd = BitReaderContainer::new(buf, m);
                    let p = positions[idx];
                    let _ = rd.seek_bits(p);
                    assert(rd.pos() == p);
                    let read = rd.read(n);
                    let ghost np = rd.pos();
                    match read {
                        Ok(v) => {
                            proof {
                                if n > 0 {
                                    lemma_read_value_bound(data.subrange(p as int, p + n), m);
                                    lemma2_to64();
                                    if n < 64 {
                                        lemma_pow2_strictly_increases(n as nat, 64);
                                    }
                                }
                            }
                            let ghost out = value_bits(v, n as nat, mw);
                            writer.write(n, v);
                            if n > 0 {
                                any = true;
                            }
                            positions.set(idx, rd.position_in_bits());
                            proof {
                                assert(pos_view(positions@) =~= pj.update(idx as int, (p + n) as nat));
                                let r = struct_round(comps@, dd, mw, pos_view(positions@), (j + 1) as nat);
                                assert(rest_here == (out + r.0, r.1, n > 0 || r.2, r.3));
                                assert(acc + (out + r.0) =~= (acc + out) + r.0);
                                assert(w0 + racc + acc + out =~= w0 + racc + (acc + out));
                                acc = acc + out;
                            }
                        },
                        Err(e) => {
                            if e == BitIoError::ExcessiveBits {
                                proof {
                                    assert(n > 64);
                                    assert(rest_here.0 =~= Seq::<bool>::empty());
                                    assert(acc + Seq::<bool>::empty() =~= acc);
                                    assert(whole.0 == acc);
                                    assert(whole.3 is Some);
                                }
                                let ghost rs = struct_rounds(comps@, dd, mw, p0, left);
                                assert(rs == (whole.0, whole.3));
                                return Err(GenerateBytesError::ReadError { bits: n });
                            }
                            positions.set(idx, rd.position_in_bits());
                            proof {
                                assert(pos_view(positions@) =~= pj.update(idx as int, data.len()));
                            }
                        },
                    }
                },
                GroupComponent::Skip(sk) => {
                    assert(slot_names(comps@, slots@, news, j as int));
                    assert(slot_aligned(comps@, slots@, news, j as int));
                    let idx = slots[j];
                    let m = states[idx].writer.msb_first();
                    let buf = states[idx].writer.as_bytes();
                    let ghost data = news[idx as int].writer.stream();
                    assert(data == dd[idx as int].3);
                    let mut rd = BitReaderContainer::new(buf, m);
                    let p = positions[idx];
                    let _ = rd.seek_bits(p);
                    if p > u64::MAX - sk.bits as u64 {
                        proof {
                            assert(rest_here.0 =~= Seq::<bool>::empty());
                            assert(acc + Seq::<bool>::empty() =~= acc);
                            assert(whole.0 == acc);
                            assert(whole.3 is Some);
                        }
                        let ghost rs = struct_rounds(comps@, dd, mw, p0, left);
                        assert(rs == (whole.0, whole.3));
                        return Err(GenerateBytesError::SeekError { bits: sk.bits });
                    }
                    let _ = rd.seek_bits(p + sk.bits as u64);
                    positions.set(idx, rd.position_in_bits());
                    proof {
                        let target = (p + sk.bits) as nat;
                        if target % 8 == 0 || target <= data.len() {
                            assert(pos_view(positions@) =~= pj.update(idx as int, target));
                        } else {
                            assert(pos_view(positions@) =~= pj.update(idx as int, data.len()));
                        }
                    }
                },
            }
            j = j + 1;
        }
        proof {
            let endr = struct_round(comps@, dd, mw, pos_view(positions@), j as nat);
            assert(endr == (Seq::<bool>::empty(), pos_view(positions@), false, None::<GenerateBytesError>));
            assert(acc + Seq::<bool>::empty() =~= acc);
            assert(whole == (acc, pos_view(positions@), any, None::<GenerateBytesError>));
        }
        if !any {
            proof {
                assert(struct_rounds(comps@, dd, mw, p0, left) == (acc, None::<GenerateBytesError>));
                assert(w0 + racc + acc =~= w0 + (racc + acc));
            }
            return Ok(());
        }
        proof {
            let rest = struct_rounds(comps@, dd, mw, pos_view(positions@), (left - 1) as nat);
            assert(struct_rounds(comps@, dd, mw, p0, left) == (acc + rest.0, rest.1));
            assert(racc + (acc + rest.0) =~= (racc + acc) + rest.0);
            assert(w0 + racc + acc =~= w0 + (racc + acc));
            racc = racc + acc;
            left = (left - 1) as nat;
        }
    }
}

/// Rounds of a struct that reads one field, `n` bits at a time in the field's
/// own order, copy the field's data from its position up to the last whole
/// chunk.
#[verifier::spinoff_prover]
#[verifier::rlimit(30)]
proof fn lemma_single_field_rounds(
    f: GroupComponentField,
    data: Seq<FieldData>,
    pos: Seq<nat>,
    fuel: nat,
)
    requires
        data_named(data, f.field@),
        ({
            let i = data_index(data, f.field@);
            let n = field_bits(f, data[i].1);
            &&& 0 < n <= 64
            &&& pos.len() == data.len()
            &&& pos[i] <= data[i].3.len()
            &&& fuel >= (data[i].3.len() - pos[i]) / n as int + 1
        }),
    ensures
        ({
            let i = data_index(data, f.field@);
            let n = field_bits(f, data[i].1);
            let bits = data[i].3;
            struct_rounds(seq![GroupComponent::Field(f)], data, data[i].2, pos, fuel)
                == (bits.subrange(pos[i] as int, pos[i] + ((bits.len() - pos[i]) / n as int) * n),
                    None::<GenerateBytesError>)
        }),
    decreases fuel,
{
    let comps = seq![GroupComponent::Field(f)];
    let i = data_index(data, f.field@);
    let n = field_bits(f, data[i].1);
    let bits = data[i].3;
    let m = data[i].2;
    let p = pos[i];
    let x = (bits.len() - p) as int;
    assert(comps[0] == GroupComponent::Field(f));
    if p + n <= bits.len() {
        let seg = bits.subrange(p as int, (p + n) as int);
        lemma_value_bits_of_read(seg, m);
        let next = pos.update(i, p + n);
        assert(struct_round(comps, data, m, next, 1) == (Seq::<bool>::empty(), next, false, None::<GenerateBytesError>));
        assert(struct_round(comps, data, m, pos, 0) == (seg + Seq::<bool>::empty(), next, true, None::<GenerateBytesError>));
        assert(seg + Seq::<bool>::empty() =~= seg);
        assert(x / n as int == 1 + (x - n) / n as int) by (nonlinear_arith)
            requires
                x >= n,
                n > 0,
        ;
        let k = (x - n) / n as int;
        assert(0 <= k && k * n <= x - n) by (nonlinear_arith)
            requires
                x >= n,
                n > 0,
                k == (x - n) / n as int,
        ;
        assert(k * n + n == (x / n as int) * n) by (nonlinear_arith)
            requires
                x / n as int == 1 + k,
        ;
        assert(next[i] == p + n);
        assert(next.len() == data.len());
        assert((bits.len() - next[i]) / n as int == k);
        lemma_single_field_rounds(f, data, next, (fuel - 1) as nat);
        let rest = struct_rounds(comps, data, m, next, (fuel - 1) as nat);
        assert(rest == (bits.subrange((p + n) as int, p + n + k * n), None::<GenerateBytesError>));
        assert(struct_rounds(comps, data, m, pos, fuel) == (seg + rest.0, rest.1));
        let expected = bits.subrange(p as int, p + (x / n as int) * n);
        assert(p + n + k * n == p + (x / n as int) * n);
        assert(seg + rest.0 =~= expected);
        assert(struct_rounds(comps, data, m, pos, fuel) == (expected, None::<GenerateBytesError>));
    } else {
        let next = pos.update(i, bits.len());
        assert(struct_round(comps, data, m, next, 1) == (Seq::<bool>::empty(), next, false, None::<GenerateBytesError>));
        assert(struct_round(comps, data, m, pos, 0) == (Seq::<bool>::empty(), next, false, None::<GenerateBytesError>));
        assert(x / n as int == 0 && (x / n as int) * n == 0) by (nonlinear_arith)
            requires
                0 <= x < n,
        ;
        assert(struct_rounds(comps, data, m, pos, fuel) == (Seq::<bool>::empty(), None::<GenerateBytesError>));
        assert(bits.subrange(p as int, p + (x / n as int) * n) =~= Seq::<bool>::empty());
    }
}

/// Round trip: a struct that reads one field of data a multiple of 8 bits long,
/// 1 to 64 bits at a time in the field's own order, gives back the field's data
/// up to its last whole chunk (all of it when the chunk length divides the
/// data's length).
pub proof fn lemma_struct_round_trip(f: GroupComponentField, data: Seq<FieldData>)
    requires
        data_named(data, f.field@),
        ({
            let d = data[data_index(data, f.field@)];
            &&& 0 < field_bits(f, d.1) <= 64
            &&& d.3.len() % 8 == 0
            &&& d.3.len() <= u64::MAX
        }),
    ensures
        ({
            let d = data[data_index(data, f.field@)];
            let n = field_bits(f, d.1);
            struct_component_output(seq![GroupComponent::Field(f)], data, d.2)
                == (d.3.subrange(0, (d.3.len() as int / n as int) * n), None::<GenerateBytesError>)
        }),
{
    let comps = seq![GroupComponent::Field(f)];
    let i = data_index(data, f.field@);
    let d = data[i];
    let n = field_bits(f, d.1);
    assert(comps[0] == GroupComponent::Field(f));
    assert(first_refused(comps, data, 1) == None::<nat>);
    assert(first_refused(comps, data, 0) == None::<nat>);
    assert(fuel_sum(comps, data, 0) == 0);
    assert(fuel_sum(comps, data, 1) == d.3.len());
    let start = Seq::new(data.len(), |k: int| 0nat);
    let fuel = struct_fuel(comps, data);
    assert(fuel == 1 + d.3.len());
    let t = d.3.len() as int;
    assert(t / n as int <= t) by (nonlinear_arith)
        requires
            n >= 1,
            t >= 0,
    ;
    lemma_single_field_rounds(f, data, start, fuel);
}

} // verus!
