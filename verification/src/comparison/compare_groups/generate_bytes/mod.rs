//! Lays out field data in the custom layouts of a schema: arrays of a field's
//! values (or slices of them), and structs that interleave values of several
//! fields with padding, round after round, until the fields run out.

use vstd::prelude::*;
use crate::analyzer::{AnalyzerFieldState, unique_names};
use crate::bits::{byte_aligned_stream, stream_bits, BitWriterContainer};
use crate::schema::GroupComponent;
use write_array::{write_array, array_component_output};
use write_struct::{write_struct, struct_component_output, streams_fit, component_ok, component_error, aligned_before,
    lemma_aligned_before_keeps};

pub mod write_array;
pub mod write_struct;
pub mod struct_fuel;

verus! {

/// Errors that can occur while laying out field data.
#[derive(Debug)]
pub enum GenerateBytesError {
    /// A component that may only stand within a struct stands at the top level.
    InvalidComponentType(String),
    /// No state is kept under this field name.
    FieldNotFound(String),
    /// A read of this many bits failed.
    ReadError { bits: u32 },
    /// A write of this many bits failed.
    WriteError { bits: u32 },
    /// Moving ahead by this many bits failed.
    SeekError { bits: u32 },
    /// A struct holds an array or another struct.
    UnsupportedNestedComponent,
    /// An array of values of no bits would never run out of data.
    NeverExhausted,
}

/// What the layouts read of a field state: its name, its length in bits, its
/// bit order, and its data (its stream padded to a byte boundary).
pub type FieldData = (Seq<char>, u32, bool, Seq<bool>);

/// What the layouts read of a field state.
pub open spec fn field_data(st: AnalyzerFieldState) -> FieldData {
    (st.name@, st.lenbits, st.writer.is_msb_first(), byte_aligned_stream(st.writer.stream()))
}

/// What the layouts read of a list of field states.
pub open spec fn data_of(states: Seq<AnalyzerFieldState>) -> Seq<FieldData> {
    Seq::new(states.len(), |i: int| field_data(states[i]))
}

/// Whether some field data has the name `name`.
pub open spec fn data_named(data: Seq<FieldData>, name: Seq<char>) -> bool {
    exists|i: int| 0 <= i < data.len() && (#[trigger] data[i]).0 == name
}

/// The index of the field data named `name` (meaningful when `data_named`).
pub open spec fn data_index(data: Seq<FieldData>, name: Seq<char>) -> int {
    choose|i: int| 0 <= i < data.len() && (#[trigger] data[i]).0 == name
}

/// Whether a state is kept under `name`.
pub open spec fn named(states: Seq<AnalyzerFieldState>, name: Seq<char>) -> bool {
    data_named(data_of(states), name)
}

/// The index of the state kept under `name` (meaningful when `named`).
pub open spec fn index_of_name(states: Seq<AnalyzerFieldState>, name: Seq<char>) -> int {
    data_index(data_of(states), name)
}

/// `new` is `old` with its stream padded to a byte boundary.
pub open spec fn aligned_state(old: AnalyzerFieldState, new: AnalyzerFieldState) -> bool {
    &&& new.name == old.name
    &&& new.full_path == old.full_path
    &&& new.depth == old.depth
    &&& new.count == old.count
    &&& new.lenbits == old.lenbits
    &&& new.bit_counts@ == old.bit_counts@
    &&& new.bit_order == old.bit_order
    &&& new.value_counts@ == old.value_counts@
    &&& new.writer.wf()
    &&& new.writer.is_msb_first() == old.writer.is_msb_first()
    &&& new.writer.stream() == byte_aligned_stream(old.writer.stream())
    &&& new.writer.bytes() == old.writer.bytes()
}

/// Every state's bit writer is well formed.
pub open spec fn writers_wf(states: Seq<AnalyzerFieldState>) -> bool {
    forall|i: int| 0 <= i < states.len() ==> (#[trigger] states[i]).writer.wf()
}

/// Each state of `new` is the same state of `old`, or that state with its
/// stream padded to a byte boundary: nothing else of the states changes.
pub open spec fn states_kept(old: Seq<AnalyzerFieldState>, new: Seq<AnalyzerFieldState>) -> bool {
    &&& new.len() == old.len()
    &&& forall|i: int| 0 <= i < old.len() ==> #[trigger] new[i] == old[i] || aligned_state(old[i], new[i])
}

/// Padding streams twice is padding them once.
pub(crate) proof fn lemma_states_kept_trans(a: Seq<AnalyzerFieldState>, b: Seq<AnalyzerFieldState>, c: Seq<AnalyzerFieldState>)
    requires
        states_kept(a, b),
        states_kept(b, c),
    ensures
        states_kept(a, c),
{
    assert forall|i: int| 0 <= i < a.len() implies #[trigger] c[i] == a[i] || aligned_state(a[i], c[i]) by {
        if b[i] != a[i] && c[i] != b[i] {
            crate::bits::lemma_aligned_idempotent(a[i].writer.stream());
        }
    }
}

/// The index of the first state kept under `name`.
pub(crate) fn find_field(states: &Vec<AnalyzerFieldState>, name: &String) -> (r: Option<usize>)
    requires
        crate::analyzer::unique_names(states@),
    ensures
        match r {
            Some(i) => i < states@.len() && i == index_of_name(states@, name@) && named(states@, name@),
            None => !named(states@, name@),
        },
{
    let mut i: usize = 0;
    while i < states.len()
        invariant
            i <= states@.len(),
            crate::analyzer::unique_names(states@),
            forall|j: int| 0 <= j < i ==> (#[trigger] states@[j]).name@ != name@,
        decreases states@.len() - i,
    {
        if states[i].name == *name {
            proof {
                let d = data_of(states@);
                assert(d[i as int].0 == name@);
                assert(named(states@, name@));
                let k = index_of_name(states@, name@);
                assert(d[k].0 == name@);
                if k != i {
                    if k < i {
                        assert(states@[k].name@ == name@);
                    } else {
                        assert(states@[i as int].name@ != states@[k].name@);
                    }
                }
            }
            return Some(i);
        }
        i = i + 1;
    }
    proof {
        let d = data_of(states@);
        assert forall|j: int| 0 <= j < d.len() implies (#[trigger] d[j]).0 != name@ by {
            assert(states@[j].name@ != name@);
        }
    }
    None
}

/// Pads the stream of the state at `idx` to a byte boundary.
pub(crate) fn align_state(states: &mut Vec<AnalyzerFieldState>, idx: usize)
    requires
        idx < old(states)@.len(),
        old(states)@[idx as int].writer.wf(),
    ensures
        final(states)@.len() == old(states)@.len(),
        aligned_state(old(states)@[idx as int], final(states)@[idx as int]),
        forall|j: int| 0 <= j < old(states)@.len() && j != idx ==> final(states)@[j] == old(states)@[j],
{
    states[idx].writer.byte_align();
}


/// The message of the error for a component other than an array or a struct at
/// the top level of a layout.
pub open spec fn top_level_message() -> Seq<char> {
    "Only arrays and structs are allowed at top level"@
}

/// The bits a layout writes over the field data `data`, in the order `mw`, and
/// how it ends: `None` when all its components were written, `Some(Some(e))`
/// when a component failed with `e`, `Some(None)` when a component other than
/// an array or a struct stands at the top level.
pub open spec fn entry_output(comps: Seq<GroupComponent>, data: Seq<FieldData>, mw: bool) -> (Seq<bool>, Option<Option<GenerateBytesError>>)
    decreases comps.len(),
{
    if comps.len() == 0 {
        (Seq::empty(), None)
    } else {
        let first = match comps[0] {
            GroupComponent::Array(a) => Some(array_component_output(a, data, mw)),
            GroupComponent::Struct(st) => Some(struct_component_output(st.fields@, data, mw)),
            _ => None,
        };
        match first {
            None => (Seq::empty(), Some(None)),
            Some((out, Some(e))) => (out, Some(Some(e))),
            Some((out, None)) => {
                let rest = entry_output(comps.drop_first(), data, mw);
                (out + rest.0, rest.1)
            },
        }
    }
}

/// Whether `r` is the result of a layout that ended as `end`.
pub open spec fn entry_result(end: Option<Option<GenerateBytesError>>, r: Result<(), GenerateBytesError>) -> bool {
    match end {
        None => r is Ok,
        Some(Some(e)) => r == Err::<(), GenerateBytesError>(e),
        Some(None) => r matches Err(GenerateBytesError::InvalidComponentType(msg)) && msg@ == top_level_message(),
    }
}

/// Writes the layout `components` of the field data kept in `field_states` to
/// `writer`: each component in turn, arrays and structs only.
pub fn generate_output_for_compare_groups_entry(
    field_states: &mut Vec<AnalyzerFieldState>,
    writer: &mut BitWriterContainer,
    components: &[GroupComponent],
) -> (r: Result<(), GenerateBytesError>)
    requires
        unique_names(old(field_states)@),
        writers_wf(old(field_states)@),
        streams_fit(old(field_states)@),
        old(writer).wf(),
    ensures
        final(writer).wf(),
        final(writer).is_msb_first() == old(writer).is_msb_first(),
        unique_names(final(field_states)@),
        writers_wf(final(field_states)@),
        streams_fit(final(field_states)@),
        data_of(final(field_states)@) == data_of(old(field_states)@),
        states_kept(old(field_states)@, final(field_states)@),
        ({
            let (out, end) = entry_output(components@, data_of(old(field_states)@), old(writer).is_msb_first());
            &&& final(writer).stream() == old(writer).stream() + out
            &&& entry_result(end, r)
        }),
{
    let ghost data = data_of(field_states@);
    let ghost mw = writer.is_msb_first();
    let ghost w0 = writer.stream();
    let ghost mut acc: Seq<bool> = Seq::empty();
    let ghost total = entry_output(components@, data, mw);
    assert(total.0 =~= acc + total.0);
    assert(components@.subrange(0, components@.len() as int) =~= components@);
    let mut i: usize = 0;
    while i < components.len()
        invariant
            i <= components@.len(),
            unique_names(field_states@),
            writers_wf(field_states@),
            streams_fit(field_states@),
            data_of(field_states@) == data,
            data == data_of(old(field_states)@),
            states_kept(old(field_states)@, field_states@),
            writer.wf(),
            writer.is_msb_first() == mw,
            mw == old(writer).is_msb_first(),
            w0 == old(writer).stream(),
            writer.stream() == w0 + acc,
            total == entry_output(components@, data, mw),
            total.0 == acc + entry_output(components@.subrange(i as int, components@.len() as int), data, mw).0,
            total.1 == entry_output(components@.subrange(i as int, components@.len() as int), data, mw).1,
        decreases components@.len() - i,
    {
        let ghost rest = components@.subrange(i as int, components@.len() as int);
        assert(rest[0] == components@[i as int]);
        assert(rest.drop_first() =~= components@.subrange(i + 1, components@.len() as int));
        let ghost here = entry_output(rest, data, mw);
        let ghost next = entry_output(rest.drop_first(), data, mw);
        let ghost before = writer.stream();
        let ghost prev = field_states@;
        let res = match &components[i] {
            GroupComponent::Array(array) => {
                let res = write_array(field_states, writer, array);
                proof {
                    if named(prev, array.field@) {
                        let k = index_of_name(prev, array.field@);
                        assert forall|j: int| 0 <= j < prev.len() implies #[trigger] field_states@[j] == prev[j]
                            || aligned_state(prev[j], field_states@[j]) by {
                            if j != k {
                                assert(field_states@[j] == prev[j]);
                            }
                        }
                    }
                    lemma_states_kept_trans(old(field_states)@, prev, field_states@);
                }
                res
            },
            GroupComponent::Struct(strct) => {
                let res = write_struct(field_states, writer, strct);
                proof {
                    let comps = strct.fields@;
                    if exists|j: int| 0 <= j < comps.len() && !component_ok(#[trigger] comps[j], data) {
                        let j = choose|j: int| #![trigger comps[j]]
                            0 <= j < comps.len() && !component_ok(comps[j], data)
                                && (forall|k: int| 0 <= k < j ==> component_ok(#[trigger] comps[k], data))
                                && res == Err::<(), GenerateBytesError>(component_error(comps[j]))
                                && writer.stream() == before
                                && aligned_before(prev, field_states@, comps, j);
                        lemma_aligned_before_keeps(prev, field_states@, comps, j);
                    } else {
                        lemma_aligned_before_keeps(prev, field_states@, comps, comps.len() as int);
                    }
                    lemma_states_kept_trans(old(field_states)@, prev, field_states@);
                }
                res
            },
            _ => {
                let msg = <String as vstd::string::StringExecFns>::from_str("Only arrays and structs are allowed at top level");
                assert(here == (Seq::<bool>::empty(), Some(None::<GenerateBytesError>)));
                assert(acc + Seq::<bool>::empty() =~= acc);
                return Err(GenerateBytesError::InvalidComponentType(msg));
            },
        };
        let ghost out = writer.stream().subrange(before.len() as int, writer.stream().len() as int);
        proof {
            assert(writer.stream() =~= before + out);
        }
        match res {
            Err(e) => {
                proof {
                    assert(here == (out, Some(Some(e))));
                    assert(w0 + acc + out =~= w0 + (acc + out));
                }
                return Err(e);
            },
            Ok(()) => {
                proof {
                    assert(here == (out + next.0, next.1));
                    assert(acc + (out + next.0) =~= (acc + out) + next.0);
                    assert(w0 + acc + out =~= w0 + (acc + out));
                    acc = acc + out;
                }
            },
        }
        i = i + 1;
    }
    proof {
        assert(components@.subrange(i as int, components@.len() as int) =~= Seq::<GroupComponent>::empty());
        assert(acc + Seq::<bool>::empty() =~= acc);
    }
    Ok(())
}

/// The bytes of the layout `components` of the field data kept in
/// `field_states`, written most significant bit first and padded with zero bits
/// to a byte boundary.
pub fn generate_group_bytes(
    components: &[GroupComponent],
    field_states: &mut Vec<AnalyzerFieldState>,
) -> (r: Result<Vec<u8>, GenerateBytesError>)
    requires
        unique_names(old(field_states)@),
        writers_wf(old(field_states)@),
        streams_fit(old(field_states)@),
    ensures
        unique_names(final(field_states)@),
        writers_wf(final(field_states)@),
        streams_fit(final(field_states)@),
        data_of(final(field_states)@) == data_of(old(field_states)@),
        states_kept(old(field_states)@, final(field_states)@),
        ({
            let (out, end) = entry_output(components@, data_of(old(field_states)@), true);
            match end {
                None => r matches Ok(bytes) && stream_bits(bytes@, true) == byte_aligned_stream(out),
                Some(Some(e)) => r == Err::<Vec<u8>, GenerateBytesError>(e),
                Some(None) => r matches Err(GenerateBytesError::InvalidComponentType(msg)) && msg@ == top_level_message(),
            }
        }),
{
    let mut writer = BitWriterContainer::new(true);
    let res = generate_output_for_compare_groups_entry(field_states, &mut writer, components);
    match res {
        Err(e) => Err(e),
        Ok(()) => {
            writer.byte_align();
            let bytes = writer.as_bytes();
            proof {
                crate::bits::lemma_aligned_idempotent(writer.stream());
            }
            let mut out: Vec<u8> = Vec::new();
            out.extend_from_slice(bytes);
            assert(out@ =~= bytes@);
            Ok(out)
        },
    }
}

} // verus!
