//! Reads records against a schema and gathers, for every field and group, its
//! data as a bit stream of its own together with bit and value statistics.
//!
//! An entry is processed in two steps. First the schema is walked over the
//! entry's bits, which yields the list of visits: for each field or group that
//! is not skipped, where its bits start and how many there are. Then each visit
//! updates the state kept under the visited name. When the walk fails (the entry
//! is too short, or a skip condition cannot be read), no state changes.

use vstd::prelude::*;
use std::collections::HashMap;
use crate::bits::{
    stream_bits, read_value, bit_of, value_bits, BitReaderContainer, BitWriterContainer,
    spec_reverse_bits, lemma_value_bits_of_read, lemma_read_value_bound,
};
use crate::offset_evaluator::{condition_start, condition_value, condition_holds, condition_in_range};
use crate::schema::{BitOrder, Condition, FieldDefinition, Group, Schema, join_path};
use crate::utils::analyze_utils::reverse_bits;
use vstd::arithmetic::power2::{pow2, lemma2_to64, lemma_pow2_strictly_increases};

verus! {

broadcast use vstd::std_specs::hash::group_hash_axioms;

/// Counts of zero and one bits seen at one bit position of a field.
#[derive(Debug, Default, Clone, Copy, PartialEq, Eq, Structural)]
pub struct BitStats {
    /// Count of zero values observed at this bit position
    pub zeros: u64,
    /// Count of one values observed at this bit position
    pub ones: u64,
}

/// State kept for one field or group while entries are analyzed.
pub struct AnalyzerFieldState {
    /// Name of the field or group
    pub name: String,
    /// Path of names from the root, joined with `.`
    pub full_path: String,
    /// Depth of the field in the group/field chain.
    pub depth: usize,
    /// Number of values seen.
    pub count: u64,
    /// Length of the field or group in bits.
    pub lenbits: u32,
    /// The bits of every value seen, one value after the other.
    pub writer: BitWriterContainer,
    /// Bit-level statistics; index `i` is the `i`-th most significant bit of a value.
    pub bit_counts: Vec<BitStats>,
    /// The order of the bits within the field.
    pub bit_order: BitOrder,
    /// Number of occurrences of each value seen.
    pub value_counts: HashMap<u64, u64>,
}

/// What an entry's visits change in a field state: its count, its bit stream,
/// its bit statistics and its value counts.
pub type FieldModel = (u64, Seq<bool>, Seq<BitStats>, Map<u64, u64>);

/// A visit of a field or group: name, first bit, number of bits, and whether
/// its values are left out of value counting.
pub type Visit = (Seq<char>, nat, nat, bool);

impl AnalyzerFieldState {
    /// The parts of the state that visits change.
    pub open spec fn model(&self) -> FieldModel {
        (self.count, self.writer.stream(), self.bit_counts@, self.value_counts@)
    }

    /// Every counter of the state is at most `t`.
    pub open spec fn counters_at_most(&self, t: int) -> bool {
        model_counters_at_most(self.model(), t)
    }
}

/// Every counter of a model is at most `t`.
pub open spec fn model_counters_at_most(md: FieldModel, t: int) -> bool {
    &&& md.0 <= t
    &&& forall|i: int| 0 <= i < md.2.len() ==> (#[trigger] md.2[i]).zeros <= t && md.2[i].ones <= t
    &&& forall|k: u64| #[trigger] md.3.contains_key(k) ==> md.3[k] <= t
}

/// One more zero or one at a bit position.
pub open spec fn bump(b: BitStats, one: bool) -> BitStats {
    if one {
        BitStats { zeros: b.zeros, ones: (b.ones + 1) as u64 }
    } else {
        BitStats { zeros: (b.zeros + 1) as u64, ones: b.ones }
    }
}

/// Bit statistics after seeing the `n`-bit value `v`: position `i` counts bit
/// `n - 1 - i` of `v`. Values of more than 64 bits are not counted.
pub open spec fn counted_bits(bc: Seq<BitStats>, v: u64, n: nat) -> Seq<BitStats> {
    if 0 < n <= 64 {
        Seq::new(bc.len(), |i: int| if i < n { bump(bc[i], bit_of(v, n - 1 - i)) } else { bc[i] })
    } else {
        bc
    }
}

/// The key under which an `n`-bit value is counted: mirrored for `Lsb` fields.
pub open spec fn value_key(v: u64, n: nat, order: BitOrder) -> u64 {
    if order == BitOrder::Lsb {
        spec_reverse_bits(n, v) as u64
    } else {
        v
    }
}

/// The count kept for `key` in `m`, 0 where it has none.
pub open spec fn count_of(m: Map<u64, u64>, key: u64) -> nat {
    if m.contains_key(key) {
        m[key] as nat
    } else {
        0
    }
}

/// Value counts after one more occurrence of `key`.
pub open spec fn counted_value(vc: Map<u64, u64>, key: u64) -> Map<u64, u64> {
    vc.insert(key, if vc.contains_key(key) { (vc[key] + 1) as u64 } else { 1u64 })
}

/// A field model after a visit of the bits `seg`, read in the order `m`.
///
/// The count grows by one and the bits are appended to the stream. A value of 1
/// to 64 bits is added to the bit statistics, and to the value counts unless
/// `skip` is set.
pub open spec fn visited_model(md: FieldModel, seg: Seq<bool>, m: bool, order: BitOrder, skip: bool) -> FieldModel {
    let n = seg.len();
    let v = read_value(seg, m) as u64;
    (
        (md.0 + 1) as u64,
        md.1 + seg,
        counted_bits(md.2, v, n),
        if 0 < n <= 64 && !skip { counted_value(md.3, value_key(v, n, order)) } else { md.3 },
    )
}

/// What a list of skip conditions decides at bit `pos` of the stream `s`:
/// `Some(true)` to skip, `Some(false)` to process, `None` when a condition
/// cannot be read (its position leaves the stream or a `u64`, or it asks for
/// more than 64 bits or for bits past the end).
pub open spec fn skip_decision(conds: Seq<Condition>, s: Seq<bool>, m: bool, pos: nat) -> Option<bool>
    decreases conds.len(),
{
    if conds.len() == 0 {
        Some(false)
    } else {
        let c = conds[0];
        let target = pos + condition_start(c);
        let n = c.bits as nat;
        if c.byte_offset * 8 + c.bit_offset > u64::MAX || target > u64::MAX {
            None
        } else if !(target % 8 == 0 || target <= s.len()) {
            None
        } else if n > 64 || (n > 0 && target + n > s.len()) {
            None
        } else if condition_value(c, if n == 0 { 0 } else { read_value(s.subrange(target as int, (target + n) as int), m) }) != c.value {
            Some(true)
        } else {
            skip_decision(conds.drop_first(), s, m, pos)
        }
    }
}

/// Whether the condition `c` can be read at bit `pos` of `s`: its start fits in
/// a `u64` and can be reached (on a byte boundary, or within `s`), and it asks
/// for at most 64 bits, all within `s`.
pub open spec fn condition_readable(c: Condition, s: Seq<bool>, pos: nat) -> bool {
    let target = pos + condition_start(c);
    let n = c.bits as nat;
    &&& c.byte_offset * 8 + c.bit_offset <= u64::MAX
    &&& target <= u64::MAX
    &&& (target % 8 == 0 || target <= s.len())
    &&& n <= 64
    &&& (n == 0 || target + n <= s.len())
}

/// The value that the condition `c` compares with its expected value at bit
/// `pos` of `s`: its bits read in the order `m` (none give 0), mirrored where
/// the condition is `Lsb`, as for the conditions of conditional offsets.
pub open spec fn condition_value_at(c: Condition, s: Seq<bool>, m: bool, pos: nat) -> nat {
    let target = pos + condition_start(c);
    let n = c.bits as nat;
    condition_value(c, if n == 0 { 0 } else { read_value(s.subrange(target as int, (target + n) as int), m) })
}

/// Skip conditions that can all be read: the group or field is skipped exactly
/// when some condition, at any place in the list, reads a value other than its
/// expected one, and processed when every condition matches.
pub proof fn lemma_skip_iff_some_condition_fails(conds: Seq<Condition>, s: Seq<bool>, m: bool, pos: nat)
    requires
        forall|j: int| 0 <= j < conds.len() ==> condition_readable(#[trigger] conds[j], s, pos),
    ensures
        skip_decision(conds, s, m, pos) == Some(
            exists|j: int| 0 <= j < conds.len() && condition_value_at(#[trigger] conds[j], s, m, pos) != conds[j].value,
        ),
    decreases conds.len(),
{
    if conds.len() > 0 {
        let rest = conds.drop_first();
        assert forall|j: int| 0 <= j < rest.len() implies condition_readable(#[trigger] rest[j], s, pos) by {
            assert(rest[j] == conds[j + 1]);
        }
        lemma_skip_iff_some_condition_fails(rest, s, m, pos);
        let c = conds[0];
        assert(condition_readable(c, s, pos));
        if condition_value_at(c, s, m, pos) == c.value {
            if exists|j: int| 0 <= j < conds.len() && condition_value_at(#[trigger] conds[j], s, m, pos) != conds[j].value {
                let j = choose|j: int| 0 <= j < conds.len() && condition_value_at(#[trigger] conds[j], s, m, pos) != conds[j].value;
                assert(j != 0);
                assert(rest[j - 1] == conds[j]);
            }
            if exists|j: int| 0 <= j < rest.len() && condition_value_at(#[trigger] rest[j], s, m, pos) != rest[j].value {
                let j = choose|j: int| 0 <= j < rest.len() && condition_value_at(#[trigger] rest[j], s, m, pos) != rest[j].value;
                assert(rest[j] == conds[j + 1]);
            }
        } else {
            assert(condition_value_at(conds[0], s, m, pos) != conds[0].value);
        }
    }
}

/// A condition that cannot be read, after conditions that all read their
/// expected values, makes the decision fail.
pub proof fn lemma_unreadable_condition_fails(conds: Seq<Condition>, s: Seq<bool>, m: bool, pos: nat, k: int)
    requires
        0 <= k < conds.len(),
        forall|j: int| 0 <= j < k ==> condition_readable(#[trigger] conds[j], s, pos)
            && condition_value_at(conds[j], s, m, pos) == conds[j].value,
        !condition_readable(conds[k], s, pos),
    ensures
        skip_decision(conds, s, m, pos) is None,
    decreases k,
{
    if k > 0 {
        let rest = conds.drop_first();
        assert(condition_readable(conds[0], s, pos));
        assert forall|j: int| 0 <= j < k - 1 implies condition_readable(#[trigger] rest[j], s, pos)
            && condition_value_at(rest[j], s, m, pos) == rest[j].value by {
            assert(rest[j] == conds[j + 1]);
        }
        assert(rest[k - 1] == conds[k]);
        lemma_unreadable_condition_fails(rest, s, m, pos, k - 1);
    }
}

/// The skip conditions of the analyzer mean what the conditions of conditional
/// offsets mean: read most-significant bit first from the start of `data`, a
/// list of conditions with in-range starts lets its group or field be processed
/// exactly when every condition holds of `data`.
pub proof fn lemma_skip_conditions_agree_with_offsets(conds: Seq<Condition>, data: Seq<u8>)
    requires
        forall|j: int| 0 <= j < conds.len() ==> condition_in_range(#[trigger] conds[j]),
    ensures
        skip_decision(conds, stream_bits(data, true), true, 0) == Some(false)
            <==> forall|j: int| 0 <= j < conds.len() ==> condition_holds(#[trigger] conds[j], data),
    decreases conds.len(),
{
    if conds.len() > 0 {
        let rest = conds.drop_first();
        assert forall|j: int| 0 <= j < rest.len() implies condition_in_range(#[trigger] rest[j]) by {
            assert(rest[j] == conds[j + 1]);
        }
        lemma_skip_conditions_agree_with_offsets(rest, data);
        if forall|j: int| 0 <= j < rest.len() ==> condition_holds(#[trigger] rest[j], data) {
            if condition_holds(conds[0], data) {
                assert forall|j: int| 0 <= j < conds.len() implies condition_holds(#[trigger] conds[j], data) by {
                    if j > 0 {
                        assert(rest[j - 1] == conds[j]);
                    }
                }
            }
        } else {
            let j = choose|j: int| 0 <= j < rest.len() && !condition_holds(#[trigger] rest[j], data);
            assert(rest[j] == conds[j + 1]);
        }
    }
}

/// `acc` in front of the visits of `r`.
pub open spec fn prepend(acc: Seq<Visit>, r: Option<(Seq<Visit>, nat)>) -> Option<(Seq<Visit>, nat)> {
    match r {
        None => None,
        Some((vs, p)) => Some((acc + vs, p)),
    }
}

/// The visits made when the group `g` is processed at bit `pos` of `s`, and the
/// position reached; `None` when the entry cannot be read that far.
///
/// A group whose conditions fail is passed over. Otherwise its children are
/// processed in order.
pub open spec fn group_visits(g: Group, s: Seq<bool>, m: bool, pos: nat) -> Option<(Seq<Visit>, nat)>
    decreases g, g.fields@.len() + 1,
{
    match skip_decision(g.skip_if_not@, s, m, pos) {
        None => None,
        Some(true) => Some((Seq::empty(), pos)),
        Some(false) => children_visits(g, 0, s, m, pos),
    }
}

/// The visits made by the children of `g` from index `i` on.
///
/// A field whose conditions fail is passed over and its bits are not consumed.
/// Another field is visited and its bits consumed. A child group is visited as
/// a whole, then its own children are processed from the same position.
pub open spec fn children_visits(g: Group, i: nat, s: Seq<bool>, m: bool, pos: nat) -> Option<(Seq<Visit>, nat)>
    decreases g, g.fields@.len() - i,
{
    if i >= g.fields@.len() {
        Some((Seq::empty(), pos))
    } else {
        let name = g.fields@[i as int].0;
        match g.fields@[i as int].1 {
            FieldDefinition::Field(f) => match skip_decision(f.skip_if_not@, s, m, pos) {
                None => None,
                Some(true) => children_visits(g, i + 1, s, m, pos),
                Some(false) => if pos + f.bits > s.len() {
                    None
                } else {
                    prepend(
                        seq![(name@, pos, f.bits as nat, f.skip_frequency_analysis)],
                        children_visits(g, i + 1, s, m, (pos + f.bits) as nat),
                    )
                },
            },
            FieldDefinition::Group(cg) => if pos + cg.bits > s.len() {
                None
            } else {
                proof {
                    assert(decreases_to!(g.fields => g.fields@));
                    assert(decreases_to!(g.fields@ => g.fields@[i as int]));
                }
                match group_visits(cg, s, m, pos) {
                    None => None,
                    Some((vs, p)) => prepend(
                        seq![(name@, pos, cg.bits as nat, cg.skip_frequency_analysis)] + vs,
                        children_visits(g, i + 1, s, m, p),
                    ),
                }
            },
        }
    }
}

/// A group whose skip conditions can all be read, and one of which (at any
/// place in the list) reads a value other than its expected one, is passed
/// over whole: nothing of it is visited and no bit is consumed.
pub proof fn lemma_failing_group_is_passed_over(g: Group, s: Seq<bool>, m: bool, pos: nat, k: int)
    requires
        forall|j: int| 0 <= j < g.skip_if_not@.len() ==> condition_readable(#[trigger] g.skip_if_not@[j], s, pos),
        0 <= k < g.skip_if_not@.len(),
        condition_value_at(g.skip_if_not@[k], s, m, pos) != g.skip_if_not@[k].value,
    ensures
        group_visits(g, s, m, pos) == Some((Seq::<Visit>::empty(), pos)),
{
    lemma_skip_iff_some_condition_fails(g.skip_if_not@, s, m, pos);
}

/// A visit recorded while walking the schema over an entry.
struct FieldVisit {
    name: String,
    start: u64,
    bits: u32,
    skip_frequency_analysis: bool,
}

impl FieldVisit {
    spec fn view_tuple(&self) -> Visit {
        (self.name@, self.start as nat, self.bits as nat, self.skip_frequency_analysis)
    }
}

spec fn visits_view(v: Seq<FieldVisit>) -> Seq<Visit> {
    v.map_values(|x: FieldVisit| x.view_tuple())
}

/// Reads the skip conditions at the reader's position and tells whether to skip;
/// the position is left where it was. `None` when a condition cannot be read.
fn should_skip(reader: &mut BitReaderContainer, conditions: &Vec<Condition>) -> (r: Option<bool>)
    requires
        old(reader).wf(),
        old(reader).pos() <= old(reader).stream().len(),
    ensures
        final(reader).wf(),
        final(reader).stream() == old(reader).stream(),
        final(reader).bytes() == old(reader).bytes(),
        final(reader).is_msb_first() == old(reader).is_msb_first(),
        r == skip_decision(conditions@, old(reader).stream(), old(reader).is_msb_first(), old(reader).pos()),
        r is Some ==> final(reader).pos() == old(reader).pos(),
{
    if conditions.len() == 0 {
        return Some(false);
    }
    let original_pos_bits = reader.position_in_bits();
    let ghost s = reader.stream();
    let ghost m = reader.is_msb_first();
    let mut i: usize = 0;
    assert(conditions@.subrange(0, conditions@.len() as int) =~= conditions@);
    while i < conditions.len()
        invariant
            reader.wf(),
            reader.stream() == s,
            reader.bytes() == old(reader).bytes(),
            reader.is_msb_first() == m,
            s == old(reader).stream(),
            m == old(reader).is_msb_first(),
            original_pos_bits == old(reader).pos(),
            original_pos_bits <= s.len(),
            i <= conditions@.len(),
            skip_decision(conditions@, s, m, original_pos_bits as nat)
                == skip_decision(conditions@.subrange(i as int, conditions@.len() as int), s, m, original_pos_bits as nat),
        decreases conditions@.len() - i,
    {
        let ghost rest = conditions@.subrange(i as int, conditions@.len() as int);
        assert(rest[0] == conditions@[i as int]);
        assert(rest.drop_first() =~= conditions@.subrange(i + 1, conditions@.len() as int));
        let condition = &conditions[i];
        if condition.byte_offset > u64::MAX / 8 {
            return None;
        }
        let scaled = condition.byte_offset * 8;
        if scaled > u64::MAX - condition.bit_offset as u64 {
            return None;
        }
        let offset = scaled + condition.bit_offset as u64;
        if original_pos_bits > u64::MAX - offset {
            return None;
        }
        let target_pos = original_pos_bits + offset;
        if reader.seek_bits(target_pos).is_err() {
            return None;
        }
        let read = reader.read(condition.bits as u32);
        let mut value = match read {
            Ok(v) => v,
            Err(_) => {
                return None;
            },
        };
        proof {
            let n = condition.bits as nat;
            if n > 0 {
                lemma_read_value_bound(s.subrange(target_pos as int, target_pos + n), m);
                lemma2_to64();
                if n < 64 {
                    lemma_pow2_strictly_increases(n, 64);
                }
            }
        }
        if condition.bit_order == BitOrder::Lsb {
            value = reverse_bits(condition.bits as u32, value);
        }
        if value != condition.value {
            let _ = reader.seek_bits(original_pos_bits);
            return Some(true);
        }
        i = i + 1;
    }
    assert(conditions@.subrange(i as int, conditions@.len() as int) =~= Seq::<Condition>::empty());
    let _ = reader.seek_bits(original_pos_bits);
    Some(false)
}

/// Walks `group` over the entry from the reader's position, appending the
/// visits made to `visits`. Returns `false` when the entry cannot be read that
/// far.
fn process_group(group: &Group, reader: &mut BitReaderContainer, visits: &mut Vec<FieldVisit>) -> (r: bool)
    requires
        old(reader).wf(),
        old(reader).pos() <= old(reader).stream().len(),
    ensures
        final(reader).wf(),
        final(reader).stream() == old(reader).stream(),
        final(reader).bytes() == old(reader).bytes(),
        final(reader).is_msb_first() == old(reader).is_msb_first(),
        r ==> final(reader).pos() <= final(reader).stream().len(),
        match group_visits(*group, old(reader).stream(), old(reader).is_msb_first(), old(reader).pos()) {
            None => !r,
            Some((vs, p)) => r && visits_view(final(visits)@) == visits_view(old(visits)@) + vs
                && final(reader).pos() == p,
        },
    decreases *group, group.fields@.len() + 1,
{
    let ghost s = reader.stream();
    let ghost m = reader.is_msb_first();
    let ghost pos0 = reader.pos();
    let ghost v0 = visits_view(visits@);
    match should_skip(reader, &group.skip_if_not) {
        None => {
            return false;
        },
        Some(true) => {
            assert(visits_view(visits@) =~= v0 + Seq::<Visit>::empty());
            return true;
        },
        Some(false) => {},
    }
    let mut i: usize = 0;
    while i < group.fields.len()
        invariant
            reader.wf(),
            reader.stream() == s,
            reader.bytes() == old(reader).bytes(),
            reader.is_msb_first() == m,
            s == old(reader).stream(),
            m == old(reader).is_msb_first(),
            reader.pos() <= s.len(),
            i <= group.fields@.len(),
            visits_view(old(visits)@) == v0,
            pos0 == old(reader).pos(),
            group_visits(*group, s, m, pos0) == children_visits(*group, 0, s, m, pos0),
            visits_view(visits@).len() >= v0.len(),
            visits_view(visits@).subrange(0, v0.len() as int) == v0,
            children_visits(*group, 0, s, m, pos0) == prepend(
                visits_view(visits@).subrange(v0.len() as int, visits_view(visits@).len() as int),
                children_visits(*group, i as nat, s, m, reader.pos()),
            ),
        decreases group.fields@.len() - i,
    {
        let ghost acc = visits_view(visits@).subrange(v0.len() as int, visits_view(visits@).len() as int);
        let ghost here = reader.pos();
        let (name, def) = (&group.fields[i].0, &group.fields[i].1);
        match def {
            FieldDefinition::Field(field) => {
                match should_skip(reader, &field.skip_if_not) {
                    None => {
                        assert(group.fields@[i as int].1 == FieldDefinition::Field(*field));
                        assert(children_visits(*group, i as nat, s, m, here) is None);
                        assert(group_visits(*group, s, m, pos0) is None);
                        return false;
                    },
                    Some(true) => {},
                    Some(false) => {
                        let pos = reader.position_in_bits();
                        let total = reader.total_bits();
                        if total - pos < field.bits as u64 {
                            assert(group.fields@[i as int].1 == FieldDefinition::Field(*field));
                            assert(children_visits(*group, i as nat, s, m, here) is None);
                            assert(group_visits(*group, s, m, pos0) is None);
                            return false;
                        }
                        let ghost before = visits@;
                        visits.push(FieldVisit {
                            name: name.clone(),
                            start: pos,
                            bits: field.bits,
                            skip_frequency_analysis: field.skip_frequency_analysis,
                        });
                        let _ = reader.seek_bits(pos + field.bits as u64);
                        proof {
                            let item = (name@, pos as nat, field.bits as nat, field.skip_frequency_analysis);
                            assert(visits_view(visits@) =~= visits_view(before).push(item));
                            assert(visits_view(visits@).subrange(0, v0.len() as int) =~= v0);
                            assert(visits_view(visits@).subrange(v0.len() as int, visits_view(visits@).len() as int)
                                =~= acc + seq![item]);
                            assert(acc + (seq![item] + (children_visits(*group, (i + 1) as nat, s, m, reader.pos())->0).0)
                                =~= acc + seq![item] + (children_visits(*group, (i + 1) as nat, s, m, reader.pos())->0).0);
                        }
                    },
                }
            },
            FieldDefinition::Group(child_group) => {
                let pos = reader.position_in_bits();
                let total = reader.total_bits();
                if total - pos < child_group.bits as u64 {
                    return false;
                }
                let ghost before = visits@;
                visits.push(FieldVisit {
                    name: name.clone(),
                    start: pos,
                    bits: child_group.bits,
                    skip_frequency_analysis: child_group.skip_frequency_analysis,
                });
                let ghost mid = visits@;
                proof {
                    assert(decreases_to!(group.fields => group.fields@));
                    assert(decreases_to!(group.fields@ => group.fields@[i as int]));
                }
                let ok = process_group(child_group, reader, visits);
                if !ok {
                    return false;
                }
                proof {
                    let item = (name@, pos as nat, child_group.bits as nat, child_group.skip_frequency_analysis);
                    let (nested, p) = group_visits(*child_group, s, m, pos as nat)->0;
                    assert(visits_view(mid) =~= visits_view(before).push(item));
                    assert(visits_view(visits@) == visits_view(mid) + nested);
                    assert(visits_view(visits@).subrange(0, v0.len() as int) =~= v0);
                    assert(visits_view(visits@).subrange(v0.len() as int, visits_view(visits@).len() as int)
                        =~= acc + (seq![item] + nested));
                    let rest = children_visits(*group, (i + 1) as nat, s, m, p);
                    if rest is Some {
                        assert(acc + (seq![item] + nested + (rest->0).0) =~= acc + (seq![item] + nested) + (rest->0).0);
                    }
                }
            },
        }
        i = i + 1;
    }
    proof {
        let acc = visits_view(visits@).subrange(v0.len() as int, visits_view(visits@).len() as int);
        assert(acc + Seq::<Visit>::empty() =~= acc);
        assert(visits_view(visits@) =~= v0 + acc);
    }
    true
}


/// Models of a list of field states.
pub open spec fn models_of(states: Seq<AnalyzerFieldState>) -> Seq<FieldModel> {
    Seq::new(states.len(), |i: int| states[i].model())
}

/// Names of a list of field states.
pub open spec fn names_of(states: Seq<AnalyzerFieldState>) -> Seq<Seq<char>> {
    Seq::new(states.len(), |i: int| states[i].name@)
}

/// Bit orders of a list of field states.
pub open spec fn orders_of(states: Seq<AnalyzerFieldState>) -> Seq<BitOrder> {
    Seq::new(states.len(), |i: int| states[i].bit_order)
}

/// The models after the visit `v`: the model kept under the visited name takes
/// the visited bits; the others do not change.
pub open spec fn apply_visit(
    models: Seq<FieldModel>,
    names: Seq<Seq<char>>,
    orders: Seq<BitOrder>,
    v: Visit,
    s: Seq<bool>,
    m: bool,
) -> Seq<FieldModel> {
    Seq::new(models.len(), |i: int|
        if names[i] == v.0 {
            visited_model(models[i], s.subrange(v.1 as int, (v.1 + v.2) as int), m, orders[i], v.3)
        } else {
            models[i]
        })
}

/// The models after the visits `vs`, in order.
pub open spec fn apply_visits(
    models: Seq<FieldModel>,
    names: Seq<Seq<char>>,
    orders: Seq<BitOrder>,
    vs: Seq<Visit>,
    s: Seq<bool>,
    m: bool,
) -> Seq<FieldModel>
    decreases vs.len(),
{
    if vs.len() == 0 {
        models
    } else {
        apply_visit(apply_visits(models, names, orders, vs.drop_last(), s, m), names, orders, vs.last(), s, m)
    }
}

/// Whether a state is kept under the visited name, with room for the bit
/// statistics of the visited value.
pub open spec fn visit_fits(states: Seq<AnalyzerFieldState>, v: Visit) -> bool {
    exists|i: int|
        0 <= i < states.len() && #[trigger] states[i].name@ == v.0
            && (0 < v.2 <= 64 ==> states[i].bit_counts@.len() >= v.2)
}

/// Whether no two states share a name.
pub open spec fn unique_names(states: Seq<AnalyzerFieldState>) -> bool {
    forall|i: int, j: int| 0 <= i < j < states.len() ==> (#[trigger] states[i]).name@ != (#[trigger] states[j]).name@
}

/// Errors of [`SchemaAnalyzer::add_entry`].
#[derive(Debug)]
pub enum AddEntryError {
    /// The entry cannot be read as the schema asks: it is too short, a skip
    /// condition asks for more than 64 bits or for bits outside the entry, or a
    /// position does not fit in a `u64`.
    ReadFailed,
    /// No state is kept under this name, or the one kept there tracks fewer bit
    /// positions than a visited value has.
    FieldStateMismatch(String),
    /// The number of visits recorded over all entries would exceed `u64::MAX`.
    CountOverflow,
}

/// Analyzes entries against a schema.
pub struct SchemaAnalyzer<'a> {
    /// Schema definition tree
    pub schema: &'a Schema,
    /// Raw data as fed into the analyzer.
    pub entries: Vec<u8>,
    /// One state per field or group name.
    pub field_states: Vec<AnalyzerFieldState>,
    /// Number of visits recorded so far over all entries; bounds every counter.
    pub visits_recorded: u64,
}

impl<'a> SchemaAnalyzer<'a> {
    /// Number of visits recorded so far.
    pub open spec fn recorded(&self) -> nat {
        self.visits_recorded as nat
    }

    /// Whether bits are taken from the high end of each byte first.
    pub open spec fn msb_first(&self) -> bool {
        self.schema.bit_order != BitOrder::Lsb
    }

    /// The analyzer's invariant: one state per name, each accumulating bits in
    /// the schema's order, and no counter above the number of visits recorded.
    pub open spec fn wf(&self) -> bool {
        &&& unique_names(self.field_states@)
        &&& forall|i: int| 0 <= i < self.field_states@.len() ==> {
            &&& (#[trigger] self.field_states@[i]).writer.wf()
            &&& self.field_states@[i].writer.is_msb_first() == self.msb_first()
            &&& self.field_states@[i].counters_at_most(self.recorded() as int)
        }
    }
}

/// A model's counters grow by at most one in a visit.
proof fn lemma_visited_counters(md: FieldModel, seg: Seq<bool>, m: bool, order: BitOrder, skip: bool, t: int)
    requires
        model_counters_at_most(md, t),
        t + 1 <= u64::MAX,
    ensures
        model_counters_at_most(visited_model(md, seg, m, order, skip), t + 1),
{
    let r = visited_model(md, seg, m, order, skip);
    assert forall|i: int| 0 <= i < r.2.len() implies (#[trigger] r.2[i]).zeros <= t + 1 && r.2[i].ones <= t + 1 by {
        assert(md.2[i].zeros <= t && md.2[i].ones <= t);
    }
}

/// Index of the first state kept under `name`.
fn find_state(states: &Vec<AnalyzerFieldState>, name: &String) -> (r: Option<usize>)
    ensures
        match r {
            Some(i) => i < states@.len() && states@[i as int].name@ == name@,
            None => forall|j: int| 0 <= j < states@.len() ==> (#[trigger] states@[j]).name@ != name@,
        },
{
    let mut i: usize = 0;
    while i < states.len()
        invariant
            i <= states@.len(),
            forall|j: int| 0 <= j < i ==> (#[trigger] states@[j]).name@ != name@,
        decreases states@.len() - i,
    {
        if states[i].name == *name {
            return Some(i);
        }
        i = i + 1;
    }
    None
}

/// Adds the bits of the `n`-bit value `bits` to the bit statistics: position
/// `i` counts bit `n - 1 - i`.
fn count_bits(bit_counts: &mut Vec<BitStats>, bits: u64, n: u32, Ghost(t): Ghost<int>)
    requires
        0 < n <= 64,
        old(bit_counts)@.len() >= n,
        forall|i: int| 0 <= i < old(bit_counts)@.len() ==> (#[trigger] old(bit_counts)@[i]).zeros <= t && old(bit_counts)@[i].ones <= t,
        t + 1 <= u64::MAX,
    ensures
        final(bit_counts)@ == counted_bits(old(bit_counts)@, bits, n as nat),
{
    let ghost bc0 = bit_counts@;
    let n = n as u64;
    let mut i: u64 = 0;
    while i < n
        invariant
            0 < n <= 64,
            bc0 == old(bit_counts)@,
            bc0.len() >= n,
            forall|j: int| 0 <= j < bc0.len() ==> (#[trigger] bc0[j]).zeros <= t && bc0[j].ones <= t,
            t + 1 <= u64::MAX,
            i <= n,
            bit_counts@ == Seq::new(bc0.len(), |j: int|
                if j < i { bump(bc0[j], bit_of(bits, n - 1 - j)) } else { bc0[j] }),
        decreases n - i,
    {
        let sh = n - 1 - i;
        let bit_value = (bits >> sh) & 1;
        let old_stats = bit_counts[i as usize];
        assert(old_stats == bc0[i as int]);
        let new_stats = if bit_value == 0 {
            BitStats { zeros: old_stats.zeros + 1, ones: old_stats.ones }
        } else {
            BitStats { zeros: old_stats.zeros, ones: old_stats.ones + 1 }
        };
        proof {
            crate::bits::lemma_bit_and_one(bits, sh);
            assert(new_stats == bump(bc0[i as int], bit_of(bits, n - 1 - i)));
        }
        bit_counts.set(i as usize, new_stats);
        i = i + 1;
        assert(bit_counts@ =~= Seq::new(bc0.len(), |j: int|
            if j < i { bump(bc0[j], bit_of(bits, n - 1 - j)) } else { bc0[j] }));
    }
    assert(bit_counts@ =~= counted_bits(bc0, bits, n as nat));
}

/// The visits of a walk lie within the stream, and so does the position reached.
proof fn lemma_group_visits_in_range(g: Group, s: Seq<bool>, m: bool, pos: nat)
    requires
        pos <= s.len(),
    ensures
        group_visits(g, s, m, pos) matches Some((vs, p)) ==> p <= s.len()
            && forall|j: int| 0 <= j < vs.len() ==> (#[trigger] vs[j]).1 + vs[j].2 <= s.len(),
    decreases g, g.fields@.len() + 1,
{
    lemma_children_visits_in_range(g, 0, s, m, pos);
}

/// The visits of the children of a group lie within the stream, and so does the
/// position reached.
proof fn lemma_children_visits_in_range(g: Group, i: nat, s: Seq<bool>, m: bool, pos: nat)
    requires
        pos <= s.len(),
    ensures
        children_visits(g, i, s, m, pos) matches Some((vs, p)) ==> p <= s.len()
            && forall|j: int| 0 <= j < vs.len() ==> (#[trigger] vs[j]).1 + vs[j].2 <= s.len(),
    decreases g, g.fields@.len() - i,
{
    if i < g.fields@.len() {
        let name = g.fields@[i as int].0;
        match g.fields@[i as int].1 {
            FieldDefinition::Field(f) => {
                match skip_decision(f.skip_if_not@, s, m, pos) {
                    None => {},
                    Some(true) => {
                        lemma_children_visits_in_range(g, i + 1, s, m, pos);
                    },
                    Some(false) => {
                        if pos + f.bits <= s.len() {
                            lemma_children_visits_in_range(g, i + 1, s, m, (pos + f.bits) as nat);
                        }
                    },
                }
            },
            FieldDefinition::Group(cg) => {
                if pos + cg.bits <= s.len() {
                    assert(decreases_to!(g.fields => g.fields@));
                    assert(decreases_to!(g.fields@ => g.fields@[i as int]));
                    lemma_group_visits_in_range(cg, s, m, pos);
                    match group_visits(cg, s, m, pos) {
                        None => {},
                        Some((vs, p)) => {
                            lemma_children_visits_in_range(g, i + 1, s, m, p);
                            let head = seq![(name@, pos, cg.bits as nat, cg.skip_frequency_analysis)] + vs;
                            assert forall|j: int| 0 <= j < head.len() implies (#[trigger] head[j]).1 + head[j].2 <= s.len() by {
                                if j > 0 {
                                    assert(head[j] == vs[j - 1]);
                                }
                            }
                        },
                    }
                }
            },
        }
    }
}

/// Reads `bit_count` bits at the reader's position into a field state: counts
/// one more value, appends the bits to the state's stream and, for a value of 1
/// to 64 bits, updates the bit statistics and (unless frequency analysis is
/// skipped) the value counts.
fn process_field_or_group(
    reader: &mut BitReaderContainer,
    bit_count: u32,
    state: &mut AnalyzerFieldState,
    skip_frequency_analysis: bool,
    Ghost(t): Ghost<int>,
)
    requires
        old(reader).wf(),
        old(reader).pos() + bit_count <= old(reader).stream().len(),
        old(state).writer.wf(),
        old(state).writer.is_msb_first() == old(reader).is_msb_first(),
        0 < bit_count <= 64 ==> old(state).bit_counts@.len() >= bit_count,
        old(state).counters_at_most(t),
        t + 1 <= u64::MAX,
    ensures
        final(reader).wf(),
        final(reader).stream() == old(reader).stream(),
        final(reader).bytes() == old(reader).bytes(),
        final(reader).is_msb_first() == old(reader).is_msb_first(),
        final(reader).pos() == old(reader).pos() + bit_count,
        final(state).model() == visited_model(
            old(state).model(),
            old(reader).stream().subrange(old(reader).pos() as int, old(reader).pos() + bit_count),
            old(reader).is_msb_first(),
            old(state).bit_order,
            skip_frequency_analysis,
        ),
        final(state).counters_at_most(t + 1),
        final(state).writer.wf(),
        final(state).writer.is_msb_first() == old(state).writer.is_msb_first(),
        final(state).name == old(state).name,
        final(state).full_path == old(state).full_path,
        final(state).depth == old(state).depth,
        final(state).lenbits == old(state).lenbits,
        final(state).bit_order == old(state).bit_order,
        final(state).bit_counts@.len() == old(state).bit_counts@.len(),
{
    let ghost s = reader.stream();
    let ghost m = reader.is_msb_first();
    let ghost p0 = reader.pos();
    let ghost seg = s.subrange(p0 as int, p0 + bit_count);
    let ghost md0 = state.model();
    proof {
        lemma_visited_counters(md0, seg, m, state.bit_order, skip_frequency_analysis, t);
    }
    state.count = state.count + 1;
    if bit_count <= 64 {
        if bit_count == 0 {
            proof {
                assert(seg =~= Seq::<bool>::empty());
                assert(state.writer.stream() =~= md0.1 + seg);
            }
            return;
        }
        let max_bits = bit_count;
        let bits = match reader.read(max_bits) {
            Ok(v) => v,
            Err(_) => {
                assert(false);
                0
            },
        };
        proof {
            lemma_value_bits_of_read(seg, m);
            lemma2_to64();
            if (max_bits as nat) < 64 {
                lemma_pow2_strictly_increases(max_bits as nat, 64);
            }
        }
        assert(bits == read_value(seg, m) as u64);
        if !skip_frequency_analysis {
            let key = if state.bit_order == BitOrder::Lsb {
                reverse_bits(max_bits, bits)
            } else {
                bits
            };
            assert(key == value_key(bits, max_bits as nat, state.bit_order));
            let current: u64 = match state.value_counts.get(&key) {
                Some(c) => *c,
                None => 0,
            };
            assert(current <= t);
            state.value_counts.insert(key, current + 1);
            assert(state.value_counts@ =~= counted_value(md0.3, key));
        }
        state.writer.write(max_bits, bits);
        count_bits(&mut state.bit_counts, bits, max_bits, Ghost(t));
        proof {
            assert(state.writer.stream() == md0.1 + seg);
            if skip_frequency_analysis {
                assert(state.value_counts@ == md0.3);
            }
        }
    } else {
        let mut remaining: u32 = bit_count;
        let ghost mut done: int = 0;
        while remaining > 0
            invariant
                reader.wf(),
                reader.stream() == s,
                reader.bytes() == old(reader).bytes(),
                reader.is_msb_first() == m,
                state.writer.wf(),
                state.writer.is_msb_first() == m,
                done + remaining == bit_count,
                0 <= done,
                reader.pos() == p0 + done,
                p0 + bit_count <= s.len(),
                seg == s.subrange(p0 as int, p0 + bit_count),
                state.writer.stream() == md0.1 + seg.subrange(0, done),
                state.count == md0.0 + 1,
                state.bit_counts@ == md0.2,
                state.value_counts@ == md0.3,
                state.name == old(state).name,
                state.full_path == old(state).full_path,
                state.depth == old(state).depth,
                state.lenbits == old(state).lenbits,
                state.bit_order == old(state).bit_order,
            decreases remaining,
        {
            let max_bits = if remaining < 64 { remaining } else { 64 };
            let ghost chunk = s.subrange(p0 + done, p0 + done + max_bits);
            let bits = match reader.read(max_bits) {
                Ok(v) => v,
                Err(_) => {
                    assert(false);
                    0
                },
            };
            proof {
                lemma_value_bits_of_read(chunk, m);
            }
            state.writer.write(max_bits, bits);
            remaining = remaining - max_bits;
            proof {
                assert(seg.subrange(0, done + max_bits) =~= seg.subrange(0, done) + chunk);
                done = done + max_bits;
            }
        }
        proof {
            assert(seg.subrange(0, done) =~= seg);
        }
    }
}

impl<'a> SchemaAnalyzer<'a> {
    /// Adds one entry: appends its bytes to `entries`, walks the schema over its
    /// bits and applies the visits to the field states.
    ///
    /// The entry's bits are read in the schema's bit order. When the walk fails
    /// (`ReadFailed`), when the visits would take the number of visits recorded
    /// past `u64::MAX` (`CountOverflow`), or when a visited name has no fitting
    /// state (`FieldStateMismatch`, for the first such visit), no state changes.
    pub fn add_entry(&mut self, entry: &[u8]) -> (r: Result<(), AddEntryError>)
        requires
            old(self).wf(),
        ensures
            final(self).wf(),
            final(self).schema == old(self).schema,
            final(self).entries@ == old(self).entries@ + entry@,
            names_of(final(self).field_states@) == names_of(old(self).field_states@),
            orders_of(final(self).field_states@) == orders_of(old(self).field_states@),
            forall|i: int| 0 <= i < final(self).field_states@.len() ==> {
                &&& (#[trigger] final(self).field_states@[i]).full_path == old(self).field_states@[i].full_path
                &&& final(self).field_states@[i].depth == old(self).field_states@[i].depth
                &&& final(self).field_states@[i].lenbits == old(self).field_states@[i].lenbits
            },
            ({
                let s = stream_bits(entry@, old(self).msb_first());
                let walk = group_visits(old(self).schema.root, s, old(self).msb_first(), 0);
                let olds = old(self).field_states@;
                if entry@.len() * 8 > u64::MAX || walk is None {
                    r matches Err(AddEntryError::ReadFailed) && models_of(final(self).field_states@) == models_of(olds)
                } else {
                    let vs = (walk->0).0;
                    if old(self).recorded() + vs.len() > u64::MAX {
                        r matches Err(AddEntryError::CountOverflow)
                            && models_of(final(self).field_states@) == models_of(olds)
                    } else if exists|k: int| 0 <= k < vs.len() && !visit_fits(olds, #[trigger] vs[k]) {
                        exists|k: int| #![trigger vs[k]]
                            0 <= k < vs.len() && !visit_fits(olds, vs[k])
                                && (forall|j: int| 0 <= j < k ==> visit_fits(olds, #[trigger] vs[j]))
                                && (r matches Err(AddEntryError::FieldStateMismatch(n)) && n@ == vs[k].0)
                                && models_of(final(self).field_states@) == models_of(olds)
                    } else {
                        &&& r is Ok
                        &&& final(self).recorded() == old(self).recorded() + vs.len()
                        &&& models_of(final(self).field_states@) == apply_visits(
                            models_of(olds), names_of(olds), orders_of(olds), vs, s, old(self).msb_first())
                    }
                }
            }),
    {
        self.entries.extend_from_slice(entry);
        if entry.len() as u64 > u64::MAX / 8 {
            return Err(AddEntryError::ReadFailed);
        }
        let msb = self.schema.bit_order.is_msb_first();
        let mut reader = BitReaderContainer::new(entry, msb);
        let mut visits: Vec<FieldVisit> = Vec::new();
        let ghost s = reader.stream();
        let ghost olds = self.field_states@;
        if !process_group(&self.schema.root, &mut reader, &mut visits) {
            return Err(AddEntryError::ReadFailed);
        }
        let ghost vs = visits_view(visits@);
        assert(visits_view(Seq::<FieldVisit>::empty()) =~= Seq::<Visit>::empty());
        assert(vs =~= Seq::<Visit>::empty() + vs);
        proof {
            lemma_group_visits_in_range(self.schema.root, s, msb, 0);
        }
        if visits.len() as u64 > u64::MAX - self.visits_recorded {
            return Err(AddEntryError::CountOverflow);
        }
        // Resolve every visit to the state it updates, before changing any.
        let mut targets: Vec<usize> = Vec::new();
        let mut k: usize = 0;
        while k < visits.len()
            invariant
                k <= visits@.len(),
                vs == visits_view(visits@),
                olds == self.field_states@,
                olds == old(self).field_states@,
                self.schema == old(self).schema,
                self.visits_recorded == old(self).visits_recorded,
                self.entries@ == old(self).entries@ + entry@,
                old(self).wf(),
                group_visits(old(self).schema.root, s, msb, 0) is Some,
                (group_visits(old(self).schema.root, s, msb, 0)->0).0 == vs,
                s == stream_bits(entry@, msb),
                msb == old(self).msb_first(),
                entry@.len() * 8 <= u64::MAX,
                old(self).recorded() + vs.len() <= u64::MAX,
                targets@.len() == k,
                forall|j: int| 0 <= j < k ==> visit_fits(olds, #[trigger] vs[j]),
                forall|j: int| 0 <= j < k ==> {
                    &&& (#[trigger] targets@[j]) < olds.len()
                    &&& olds[targets@[j] as int].name@ == vs[j].0
                    &&& (0 < vs[j].2 <= 64 ==> olds[targets@[j] as int].bit_counts@.len() >= vs[j].2)
                },
            decreases visits@.len() - k,
        {
            assert(vs[k as int] == visits@[k as int].view_tuple());
            let found = find_state(&self.field_states, &visits[k].name);
            match found {
                None => {
                    assert(!visit_fits(olds, vs[k as int]));
                    let r = Err(AddEntryError::FieldStateMismatch(visits[k].name.clone()));
                    proof {
                        assert(exists|kk: int| 0 <= kk < vs.len() && !visit_fits(olds, #[trigger] vs[kk]));
                        assert(r matches Err(AddEntryError::FieldStateMismatch(n)) && n@ == vs[k as int].0);
                    }
                    return r;
                },
                Some(idx) => {
                    let bits = visits[k].bits;
                    if bits > 0 && bits <= 64 && self.field_states[idx].bit_counts.len() < bits as usize {
                        proof {
                            assert forall|i: int| 0 <= i < olds.len() && #[trigger] olds[i].name@ == vs[k as int].0
                                implies !(0 < vs[k as int].2 <= 64 ==> olds[i].bit_counts@.len() >= vs[k as int].2) by {
                                if i != idx {
                                    if i < idx {
                                        assert(olds[i].name@ != olds[idx as int].name@);
                                    } else {
                                        assert(olds[idx as int].name@ != olds[i].name@);
                                    }
                                }
                            }
                        }
                        let r = Err(AddEntryError::FieldStateMismatch(visits[k].name.clone()));
                        proof {
                            assert(!visit_fits(olds, vs[k as int]));
                            assert(exists|kk: int| 0 <= kk < vs.len() && !visit_fits(olds, #[trigger] vs[kk]));
                            assert(r matches Err(AddEntryError::FieldStateMismatch(n)) && n@ == vs[k as int].0);
                        }
                        return r;
                    }
                    targets.push(idx);
                },
            }
            k = k + 1;
        }
        // Apply the visits in order.
        let ghost t0 = self.visits_recorded as int;
        let ghost names = names_of(olds);
        let ghost orders = orders_of(olds);
        let mut k: usize = 0;
        while k < visits.len()
            invariant
                k <= visits@.len(),
                vs == visits_view(visits@),
                targets@.len() == visits@.len(),
                forall|j: int| 0 <= j < visits@.len() ==> {
                    &&& (#[trigger] targets@[j]) < olds.len()
                    &&& olds[targets@[j] as int].name@ == vs[j].0
                    &&& (0 < vs[j].2 <= 64 ==> olds[targets@[j] as int].bit_counts@.len() >= vs[j].2)
                },
                old(self).wf(),
                olds == old(self).field_states@,
                self.schema == old(self).schema,
                self.visits_recorded == old(self).visits_recorded,
                self.entries@ == old(self).entries@ + entry@,
                t0 == old(self).recorded(),
                t0 + vs.len() <= u64::MAX,
                group_visits(old(self).schema.root, s, msb, 0) is Some,
                (group_visits(old(self).schema.root, s, msb, 0)->0).0 == vs,
                s == stream_bits(entry@, msb),
                msb == old(self).msb_first(),
                entry@.len() * 8 <= u64::MAX,
                old(self).recorded() + vs.len() <= u64::MAX,

                names == names_of(olds),
                orders == orders_of(olds),
                self.field_states@.len() == olds.len(),
                names_of(self.field_states@) == names,
                orders_of(self.field_states@) == orders,
                forall|i: int| 0 <= i < olds.len() ==> {
                    &&& (#[trigger] self.field_states@[i]).full_path == olds[i].full_path
                    &&& self.field_states@[i].depth == olds[i].depth
                    &&& self.field_states@[i].lenbits == olds[i].lenbits
                    &&& self.field_states@[i].bit_counts@.len() == olds[i].bit_counts@.len()
                    &&& self.field_states@[i].writer.wf()
                    &&& self.field_states@[i].writer.is_msb_first() == msb
                    &&& self.field_states@[i].counters_at_most(t0 + k)
                },
                msb == old(self).msb_first(),
                reader.wf(),
                reader.stream() == s,
                reader.is_msb_first() == msb,
                s == stream_bits(entry@, msb),
                forall|j: int| 0 <= j < vs.len() ==> (#[trigger] vs[j]).1 + vs[j].2 <= s.len(),
                models_of(self.field_states@) == apply_visits(models_of(olds), names, orders, vs.subrange(0, k as int), s, msb),
            decreases visits@.len() - k,
        {
            let idx = targets[k];
            let start = visits[k].start;
            let bits = visits[k].bits;
            let skip = visits[k].skip_frequency_analysis;
            assert(vs[k as int] == visits@[k as int].view_tuple());
            let _ = reader.seek_bits(start);
            let ghost before = self.field_states@;
            process_field_or_group(&mut reader, bits, &mut self.field_states[idx], skip, Ghost(t0 + k));
            proof {
                let after = self.field_states@;
                assert forall|i: int| 0 <= i < olds.len() && i != idx implies after[i] == before[i] by {}
                let v = vs[k as int];
                let prev = models_of(before);
                assert(vs.subrange(0, k + 1).drop_last() =~= vs.subrange(0, k as int));
                assert(vs.subrange(0, k + 1).last() == v);
                assert forall|i: int| 0 <= i < olds.len() implies
                    #[trigger] models_of(after)[i] == apply_visit(prev, names, orders, v, s, msb)[i] by {
                    if i == idx {
                    } else {
                        assert(names[i] != v.0) by {
                            if i < idx {
                                assert(olds[i].name@ != olds[idx as int].name@);
                            } else {
                                assert(olds[idx as int].name@ != olds[i].name@);
                            }
                        }
                    }
                }
                assert(models_of(after) =~= apply_visit(prev, names, orders, v, s, msb));
            }
            k = k + 1;
        }
        assert(vs.subrange(0, k as int) =~= vs);
        self.visits_recorded = self.visits_recorded + visits.len() as u64;
        proof {
            let after = self.field_states@;
            assert forall|i: int, j: int| 0 <= i < j < after.len() implies (#[trigger] after[i]).name@ != (#[trigger] after[j]).name@ by {
                assert(names_of(after)[i] == names_of(olds)[i]);
                assert(names_of(after)[j] == names_of(olds)[j]);
                assert(olds[i].name@ != olds[j].name@);
            }
            assert(forall|kk: int| 0 <= kk < vs.len() ==> visit_fits(olds, #[trigger] vs[kk]));
        }
        Ok(())
    }
}


/// A field or group of the schema as its state is built: name, full path,
/// depth, length in bits and resolved bit order.
pub type NodeInfo = (Seq<char>, Seq<char>, nat, u32, BitOrder);

/// The depth of the children of a node at depth `d` (kept at the largest
/// `usize`).
pub open spec fn next_depth(d: nat) -> nat {
    if d < usize::MAX {
        d + 1
    } else {
        d
    }
}

/// `bits`, or 0 for more than 64 bits: the number of bit positions tracked.
pub open spec fn spec_clamp_bits(bits: nat) -> nat {
    if bits > 64 {
        0
    } else {
        bits
    }
}

/// The fields and groups below `g`, from its child `i` on, in schema order:
/// each child, followed by the nodes below it when it is a group.
pub open spec fn children_nodes(g: Group, i: nat, parent: Seq<char>, depth: nat) -> Seq<NodeInfo>
    decreases g, g.fields@.len() - i,
{
    if i >= g.fields@.len() {
        Seq::empty()
    } else {
        let name = g.fields@[i as int].0@;
        let path = join_path(parent, name);
        match g.fields@[i as int].1 {
            FieldDefinition::Field(f) => seq![(name, path, depth, f.bits, crate::schema::resolved_bit_order(f.bit_order))]
                + children_nodes(g, i + 1, parent, depth),
            FieldDefinition::Group(cg) => {
                proof {
                    assert(decreases_to!(g.fields => g.fields@));
                    assert(decreases_to!(g.fields@ => g.fields@[i as int]));
                }
                seq![(name, path, depth, cg.bits, crate::schema::resolved_bit_order(cg.bit_order))]
                    + children_nodes(cg, 0, path, next_depth(depth))
                    + children_nodes(g, i + 1, parent, depth)
            },
        }
    }
}

/// A fresh state for the node `node`, accumulating bits in the order `msb`.
pub open spec fn is_fresh_state(st: AnalyzerFieldState, node: NodeInfo, msb: bool) -> bool {
    &&& st.name@ == node.0
    &&& st.full_path@ == node.1
    &&& st.depth == node.2
    &&& st.lenbits == node.3
    &&& st.bit_order == node.4
    &&& st.count == 0
    &&& st.writer.wf()
    &&& st.writer.stream() == Seq::<bool>::empty()
    &&& st.writer.is_msb_first() == msb
    &&& st.bit_counts@ == Seq::new(spec_clamp_bits(node.3 as nat), |i: int| BitStats { zeros: 0, ones: 0 })
    &&& st.value_counts@ == Map::<u64, u64>::empty()
}

/// No later node has the name of node `k`.
pub open spec fn last_of_name(nodes: Seq<NodeInfo>, k: int) -> bool {
    forall|k2: int| k < k2 < nodes.len() ==> (#[trigger] nodes[k2]).0 != nodes[k].0
}

/// `states` holds one fresh state per name of `nodes`, made from the last node
/// of that name.
pub open spec fn states_for_nodes(states: Seq<AnalyzerFieldState>, nodes: Seq<NodeInfo>, msb: bool) -> bool {
    &&& unique_names(states)
    &&& forall|i: int| 0 <= i < states.len() ==> exists|k: int|
        0 <= k < nodes.len() && last_of_name(nodes, k) && is_fresh_state(#[trigger] states[i], nodes[k], msb)
    &&& forall|k: int| 0 <= k < nodes.len() ==> exists|i: int|
        0 <= i < states.len() && (#[trigger] states[i]).name@ == (#[trigger] nodes[k]).0
}

/// `bits`, or 0 for more than 64 bits: the number of bit positions whose
/// statistics are kept for a field or group.
pub fn clamp_bits(bits: usize) -> (r: usize)
    ensures
        r == spec_clamp_bits(bits as nat),
{
    if bits > 64 {
        0
    } else {
        bits
    }
}

/// Creates the fresh state of a node.
fn fresh_state(name: &String, full_path: String, depth: usize, lenbits: u32, bit_order: BitOrder, msb: bool) -> (st: AnalyzerFieldState)
    ensures
        is_fresh_state(st, (name@, full_path@, depth as nat, lenbits, crate::schema::resolved_bit_order(bit_order)), msb),
{
    let n = clamp_bits(lenbits as usize);
    let mut bit_counts: Vec<BitStats> = Vec::new();
    let mut i: usize = 0;
    while i < n
        invariant
            i <= n,
            bit_counts@ == Seq::new(i as nat, |j: int| BitStats { zeros: 0, ones: 0 }),
        decreases n - i,
    {
        bit_counts.push(BitStats { zeros: 0, ones: 0 });
        i = i + 1;
        assert(bit_counts@ =~= Seq::new(i as nat, |j: int| BitStats { zeros: 0, ones: 0 }));
    }
    AnalyzerFieldState {
        name: name.clone(),
        full_path,
        depth,
        count: 0,
        lenbits,
        writer: BitWriterContainer::new(msb),
        bit_counts,
        bit_order: bit_order.get_with_default_resolve(),
        value_counts: HashMap::new(),
    }
}

/// Keeps `st` as the state of its name: replaces the state of that name, or
/// adds it when there is none.
fn upsert_state(states: &mut Vec<AnalyzerFieldState>, st: AnalyzerFieldState, Ghost(nodes): Ghost<Seq<NodeInfo>>, Ghost(node): Ghost<NodeInfo>, Ghost(msb): Ghost<bool>)
    requires
        states_for_nodes(old(states)@, nodes, msb),
        is_fresh_state(st, node, msb),
    ensures
        states_for_nodes(final(states)@, nodes.push(node), msb),
{
    let ghost olds = states@;
    let ghost all = nodes.push(node);
    assert(all[nodes.len() as int] == node);
    match find_state(states, &st.name) {
        Some(idx) => {
            states.set(idx, st);
            proof {
                let news = states@;
                assert forall|i: int, j: int| 0 <= i < j < news.len() implies (#[trigger] news[i]).name@ != (#[trigger] news[j]).name@ by {
                    assert(olds[i].name@ != olds[j].name@);
                }
                assert forall|i: int| 0 <= i < news.len() implies exists|k: int|
                    0 <= k < all.len() && last_of_name(all, k) && is_fresh_state(#[trigger] news[i], all[k], msb) by {
                    if i == idx {
                        assert(last_of_name(all, nodes.len() as int));
                        assert(is_fresh_state(news[i], all[nodes.len() as int], msb));
                    } else {
                        let k = choose|k: int| 0 <= k < nodes.len() && last_of_name(nodes, k) && is_fresh_state(olds[i], nodes[k], msb);
                        assert(olds[i].name@ != olds[idx as int].name@);
                        assert(all[k] == nodes[k]);
                        assert(last_of_name(all, k));
                    }
                }
                assert forall|k: int| 0 <= k < all.len() implies exists|i: int|
                    0 <= i < news.len() && (#[trigger] news[i]).name@ == (#[trigger] all[k]).0 by {
                    if k == nodes.len() {
                        assert(news[idx as int].name@ == all[k].0);
                    } else {
                        assert(all[k] == nodes[k]);
                        let i = choose|i: int| 0 <= i < olds.len() && (#[trigger] olds[i]).name@ == nodes[k].0;
                        if i == idx {
                            assert(news[i].name@ == all[k].0);
                        } else {
                            assert(news[i] == olds[i]);
                        }
                    }
                }
            }
        },
        None => {
            states.push(st);
            proof {
                let news = states@;
                assert forall|i: int, j: int| 0 <= i < j < news.len() implies (#[trigger] news[i]).name@ != (#[trigger] news[j]).name@ by {
                    if j < olds.len() {
                        assert(olds[i].name@ != olds[j].name@);
                    } else {
                        assert(news[i] == olds[i]);
                    }
                }
                assert forall|i: int| 0 <= i < news.len() implies exists|k: int|
                    0 <= k < all.len() && last_of_name(all, k) && is_fresh_state(#[trigger] news[i], all[k], msb) by {
                    if i == olds.len() {
                        assert(last_of_name(all, nodes.len() as int));
                        assert(is_fresh_state(news[i], all[nodes.len() as int], msb));
                    } else {
                        assert(news[i] == olds[i]);
                        let k = choose|k: int| 0 <= k < nodes.len() && last_of_name(nodes, k) && is_fresh_state(olds[i], nodes[k], msb);
                        assert(all[k] == nodes[k]);
                        assert(olds[i].name@ != node.0);
                        assert(last_of_name(all, k));
                    }
                }
                assert forall|k: int| 0 <= k < all.len() implies exists|i: int|
                    0 <= i < news.len() && (#[trigger] news[i]).name@ == (#[trigger] all[k]).0 by {
                    if k == nodes.len() {
                        assert(news[olds.len() as int].name@ == all[k].0);
                    } else {
                        assert(all[k] == nodes[k]);
                        let i = choose|i: int| 0 <= i < olds.len() && (#[trigger] olds[i]).name@ == nodes[k].0;
                        assert(news[i] == olds[i]);
                    }
                }
            }
        },
    }
}

/// Adds to `states` the states of the fields and groups below `group`, whose
/// parent path is `parent_path` and depth `depth`: one fresh state per name,
/// made from the last field or group of that name in schema order.
#[verifier::spinoff_prover]
#[verifier::rlimit(40)]
fn collect_field_states(
    group: &Group,
    parent_path: &String,
    depth: usize,
    msb: bool,
    states: &mut Vec<AnalyzerFieldState>,
    Ghost(nodes): Ghost<Seq<NodeInfo>>,
)
    requires
        states_for_nodes(old(states)@, nodes, msb),
    ensures
        states_for_nodes(final(states)@, nodes + children_nodes(*group, 0, parent_path@, depth as nat), msb),
    decreases *group, group.fields@.len() + 1,
{
    let mut i: usize = 0;
    let ghost mut done: Seq<NodeInfo> = nodes;
    while i < group.fields.len()
        invariant
            i <= group.fields@.len(),
            states_for_nodes(states@, done, msb),
            nodes + children_nodes(*group, 0, parent_path@, depth as nat)
                == done + children_nodes(*group, i as nat, parent_path@, depth as nat),
        decreases group.fields@.len() - i,
    {
        let name = &group.fields[i].0;
        let path = if parent_path.as_str().is_empty() {
            name.clone()
        } else {
            let mut p = parent_path.clone();
            p.append(".");
            p.append(name.as_str());
            proof {
                reveal_strlit(".");
            }
            p
        };
        assert(path@ == join_path(parent_path@, name@));
        match &group.fields[i].1 {
            FieldDefinition::Field(field) => {
                let st = fresh_state(name, path, depth, field.bits, field.bit_order, msb);
                let ghost node = (name@, join_path(parent_path@, name@), depth as nat, field.bits, crate::schema::resolved_bit_order(field.bit_order));
                upsert_state(states, st, Ghost(done), Ghost(node), Ghost(msb));
                proof {
                    let rest = children_nodes(*group, (i + 1) as nat, parent_path@, depth as nat);
                    assert(children_nodes(*group, i as nat, parent_path@, depth as nat) == seq![node] + rest);
                    assert(done + (seq![node] + rest) =~= done.push(node) + rest);
                    done = done.push(node);
                }
            },
            FieldDefinition::Group(child) => {
                let child_path_string = path.clone();
                let st = fresh_state(name, path, depth, child.bits, child.bit_order, msb);
                let ghost node = (name@, join_path(parent_path@, name@), depth as nat, child.bits, crate::schema::resolved_bit_order(child.bit_order));
                upsert_state(states, st, Ghost(done), Ghost(node), Ghost(msb));
                let child_depth = if depth < usize::MAX { depth + 1 } else { depth };
                proof {
                    assert(decreases_to!(group.fields => group.fields@));
                    assert(decreases_to!(group.fields@ => group.fields@[i as int]));
                }
                collect_field_states(child, &child_path_string, child_depth, msb, states, Ghost(done.push(node)));
                proof {
                    let below = children_nodes(*child, 0, child_path_string@, child_depth as nat);
                    let rest = children_nodes(*group, (i + 1) as nat, parent_path@, depth as nat);
                    assert(children_nodes(*group, i as nat, parent_path@, depth as nat) == seq![node] + below + rest);
                    assert(done + (seq![node] + below + rest) =~= done.push(node) + below + rest);
                    done = done.push(node) + below;
                }
            },
        }
        i = i + 1;
    }
    assert(done + children_nodes(*group, i as nat, parent_path@, depth as nat) =~= done);
}

/// The states of the fields and groups below `group`: one fresh state per name,
/// made from the last field or group of that name in schema order, with its bits
/// accumulated in the order `msb`.
fn build_field_stats(group: &Group, parent_path: &String, depth: usize, msb: bool) -> (states: Vec<AnalyzerFieldState>)
    ensures
        states_for_nodes(states@, children_nodes(*group, 0, parent_path@, depth as nat), msb),
{
    let mut states: Vec<AnalyzerFieldState> = Vec::new();
    let ghost empty = Seq::<NodeInfo>::empty();
    collect_field_states(group, parent_path, depth, msb, &mut states, Ghost(empty));
    assert(empty + children_nodes(*group, 0, parent_path@, depth as nat) =~= children_nodes(*group, 0, parent_path@, depth as nat));
    states
}

impl<'a> SchemaAnalyzer<'a> {
    /// Creates an analyzer for `schema`, with no entries and one fresh state
    /// per name of a field or group of the schema.
    pub fn new(schema: &'a Schema) -> (r: Self)
        ensures
            r.wf(),
            r.schema == schema,
            r.entries@ == Seq::<u8>::empty(),
            r.recorded() == 0,
            states_for_nodes(r.field_states@, children_nodes(schema.root, 0, Seq::empty(), 0), r.msb_first()),
    {
        let msb = schema.bit_order.is_msb_first();
        let root_path = String::new();
        let field_states = build_field_stats(&schema.root, &root_path, 0, msb);
        let r = SchemaAnalyzer { schema, entries: Vec::new(), field_states, visits_recorded: 0 };
        proof {
            let nodes = children_nodes(schema.root, 0, Seq::empty(), 0);
            assert forall|i: int| 0 <= i < r.field_states@.len() implies {
                &&& (#[trigger] r.field_states@[i]).writer.wf()
                &&& r.field_states@[i].writer.is_msb_first() == r.msb_first()
                &&& r.field_states@[i].counters_at_most(r.recorded() as int)
            } by {
                let k = choose|k: int| 0 <= k < nodes.len() && last_of_name(nodes, k) && is_fresh_state(r.field_states@[i], nodes[k], msb);
            }
        }
        r
    }

    /// The state kept under `name`, if any.
    pub fn field_state(&self, name: &str) -> (r: Option<&AnalyzerFieldState>)
        ensures
            match r {
                Some(st) => exists|i: int| 0 <= i < self.field_states@.len() && self.field_states@[i] == *st && st.name@ == name@,
                None => forall|i: int| 0 <= i < self.field_states@.len() ==> (#[trigger] self.field_states@[i]).name@ != name@,
            },
    {
        let key = name.to_owned();
        match find_state(&self.field_states, &key) {
            Some(i) => Some(&self.field_states[i]),
            None => None,
        }
    }
}

/// The number of visits in `vs` made under the name `name`.
pub open spec fn visit_count(vs: Seq<Visit>, name: Seq<char>) -> nat
    decreases vs.len(),
{
    if vs.len() == 0 {
        0
    } else {
        visit_count(vs.drop_last(), name) + if vs.last().0 == name { 1nat } else { 0nat }
    }
}

/// The bits of the stream `s` that the visits in `vs` made under the name
/// `name` cover, in order.
pub open spec fn visited_bits(vs: Seq<Visit>, name: Seq<char>, s: Seq<bool>) -> Seq<bool>
    decreases vs.len(),
{
    if vs.len() == 0 {
        Seq::empty()
    } else {
        let v = vs.last();
        visited_bits(vs.drop_last(), name, s) + if v.0 == name {
            s.subrange(v.1 as int, (v.1 + v.2) as int)
        } else {
            Seq::empty()
        }
    }
}

/// What a field state gathers from an entry: its stream gets, in order, the bits
/// of every visit made under its name, and its count grows by the number of
/// those visits.
pub proof fn lemma_apply_visits_accumulates(
    models: Seq<FieldModel>,
    names: Seq<Seq<char>>,
    orders: Seq<BitOrder>,
    vs: Seq<Visit>,
    s: Seq<bool>,
    m: bool,
    i: int,
)
    requires
        0 <= i < models.len(),
        names.len() == models.len(),
        orders.len() == models.len(),
        models[i].0 + vs.len() <= u64::MAX,
    ensures
        apply_visits(models, names, orders, vs, s, m).len() == models.len(),
        apply_visits(models, names, orders, vs, s, m)[i].0 == models[i].0 + visit_count(vs, names[i]),
        apply_visits(models, names, orders, vs, s, m)[i].1 == models[i].1 + visited_bits(vs, names[i], s),
    decreases vs.len(),
{
    if vs.len() == 0 {
        assert(models[i].1 + Seq::<bool>::empty() =~= models[i].1);
    } else {
        let prev = vs.drop_last();
        lemma_apply_visits_accumulates(models, names, orders, prev, s, m, i);
        lemma_visit_count_bound(prev, names[i]);
        let v = vs.last();
        let before = apply_visits(models, names, orders, prev, s, m);
        if names[i] == v.0 {
            let seg = s.subrange(v.1 as int, (v.1 + v.2) as int);
            assert(models[i].1 + visited_bits(prev, names[i], s) + seg =~= models[i].1 + (visited_bits(prev, names[i], s) + seg));
        } else {
            assert(visited_bits(prev, names[i], s) + Seq::<bool>::empty() =~= visited_bits(prev, names[i], s));
        }
    }
}

/// At most every visit is made under a given name.
proof fn lemma_visit_count_bound(vs: Seq<Visit>, name: Seq<char>)
    ensures
        visit_count(vs, name) <= vs.len(),
    decreases vs.len(),
{
    if vs.len() > 0 {
        lemma_visit_count_bound(vs.drop_last(), name);
    }
}

/// The value read by a visit `v` of the stream `s` in the order `m`.
pub open spec fn visit_value(v: Visit, s: Seq<bool>, m: bool) -> u64 {
    read_value(s.subrange(v.1 as int, (v.1 + v.2) as int), m) as u64
}

/// The number of visits in `vs` made under `name` that count a value under
/// `key`: values of 1 to 64 bits, not left out of value counting, whose key
/// (mirrored for `Lsb` fields) is `key`.
pub open spec fn value_visits(vs: Seq<Visit>, name: Seq<char>, order: BitOrder, s: Seq<bool>, m: bool, key: u64) -> nat
    decreases vs.len(),
{
    if vs.len() == 0 {
        0
    } else {
        let v = vs.last();
        value_visits(vs.drop_last(), name, order, s, m, key) + if v.0 == name && 0 < v.2 <= 64 && !v.3
            && value_key(visit_value(v, s, m), v.2, order) == key {
            1nat
        } else {
            0nat
        }
    }
}

/// The number of visits in `vs` made under `name`, of 1 to 64 bits and more
/// than `j`, whose value has `bit` as its bit `j` counted from the most
/// significant one.
pub open spec fn bit_visits(vs: Seq<Visit>, name: Seq<char>, s: Seq<bool>, m: bool, j: int, bit: bool) -> nat
    decreases vs.len(),
{
    if vs.len() == 0 {
        0
    } else {
        let v = vs.last();
        bit_visits(vs.drop_last(), name, s, m, j, bit) + if v.0 == name && 0 < v.2 <= 64 && j < v.2
            && bit_of(visit_value(v, s, m), v.2 - 1 - j) == bit {
            1nat
        } else {
            0nat
        }
    }
}

/// What a field state counts from an entry: each value's count grows by the
/// number of visits under the field's name that read it, and each bit
/// position's zeros and ones grow by the number of visits whose value has a
/// zero, or a one, there.
pub proof fn lemma_apply_visits_counts(
    models: Seq<FieldModel>,
    names: Seq<Seq<char>>,
    orders: Seq<BitOrder>,
    vs: Seq<Visit>,
    s: Seq<bool>,
    m: bool,
    i: int,
    key: u64,
    j: int,
)
    requires
        0 <= i < models.len(),
        names.len() == models.len(),
        orders.len() == models.len(),
        forall|k: int| 0 <= k < vs.len() ==> (#[trigger] vs[k]).1 + vs[k].2 <= s.len(),
        count_of(models[i].3, key) + vs.len() <= u64::MAX,
        0 <= j < models[i].2.len(),
        models[i].2[j].zeros + vs.len() <= u64::MAX,
        models[i].2[j].ones + vs.len() <= u64::MAX,
    ensures
        apply_visits(models, names, orders, vs, s, m).len() == models.len(),
        apply_visits(models, names, orders, vs, s, m)[i].2.len() == models[i].2.len(),
        count_of(apply_visits(models, names, orders, vs, s, m)[i].3, key)
            == count_of(models[i].3, key) + value_visits(vs, names[i], orders[i], s, m, key),
        apply_visits(models, names, orders, vs, s, m)[i].2[j].zeros
            == models[i].2[j].zeros + bit_visits(vs, names[i], s, m, j, false),
        apply_visits(models, names, orders, vs, s, m)[i].2[j].ones
            == models[i].2[j].ones + bit_visits(vs, names[i], s, m, j, true),
    decreases vs.len(),
{
    if vs.len() > 0 {
        let prev = vs.drop_last();
        assert forall|k: int| 0 <= k < prev.len() implies (#[trigger] prev[k]).1 + prev[k].2 <= s.len() by {
            assert(prev[k] == vs[k]);
        }
        lemma_apply_visits_counts(models, names, orders, prev, s, m, i, key, j);
        lemma_counts_bound(prev, names[i], orders[i], s, m, key, j);
        let v = vs.last();
        assert(v == vs[vs.len() - 1]);
        let seg = s.subrange(v.1 as int, (v.1 + v.2) as int);
        assert(seg.len() == v.2);
    }
}

/// Counted visits are at most all visits.
proof fn lemma_counts_bound(vs: Seq<Visit>, name: Seq<char>, order: BitOrder, s: Seq<bool>, m: bool, key: u64, j: int)
    ensures
        value_visits(vs, name, order, s, m, key) <= vs.len(),
        bit_visits(vs, name, s, m, j, false) <= vs.len(),
        bit_visits(vs, name, s, m, j, true) <= vs.len(),
    decreases vs.len(),
{
    if vs.len() > 0 {
        lemma_counts_bound(vs.drop_last(), name, order, s, m, key, j);
    }
}

} // verus!
