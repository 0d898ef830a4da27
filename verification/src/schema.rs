//! Schema describing a bit-packed structure: its fields and groups, the
//! conditions under which parts of it are read, and the comparisons to make
//! between alternative layouts of its data.
//!
//! Parsing the YAML text into these types happens outside this crate; the
//! functions here finish what parsing leaves: checking the version and the
//! group tags, summing the bit lengths of groups, and passing bit orders down to
//! children that do not set their own.

use vstd::prelude::*;

verus! {

/// Bit ordering of a field, group or schema.
///
/// - `Msb`: values are read with their first bit as the most significant one.
/// - `Lsb`: values are read with their first bit as the least significant one.
/// - `Default`: not set; resolves to `Msb` unless a parent sets an order.
#[derive(Debug, Clone, Copy, PartialEq, Eq, Structural)]
pub enum BitOrder {
    Default,
    Msb,
    Lsb,
}

impl Default for BitOrder {
    fn default() -> (r: Self)
        ensures
            r == BitOrder::Default,
    {
        BitOrder::Default
    }
}

/// `Default` resolved to `Msb`.
pub open spec fn resolved_bit_order(o: BitOrder) -> BitOrder {
    if o == BitOrder::Default {
        BitOrder::Msb
    } else {
        o
    }
}

impl BitOrder {
    /// Resolves an unset order to `Msb`.
    pub fn get_with_default_resolve(self) -> (r: BitOrder)
        ensures
            r == resolved_bit_order(self),
    {
        if self == BitOrder::Default {
            BitOrder::Msb
        } else {
            self
        }
    }

    /// Whether a stream in this order takes bits from the high end of each byte
    /// first (`Default` and `Msb`), rather than from the low end (`Lsb`).
    pub fn is_msb_first(self) -> (r: bool)
        ensures
            r == (self != BitOrder::Lsb),
    {
        self != BitOrder::Lsb
    }
}

/// A condition on the value of some bits of a record.
///
/// The bits start `byte_offset * 8 + bit_offset` bits after the position the
/// condition is checked at; `bits` of them are read and compared to `value`.
/// With `bit_order: Lsb` the bits read are mirrored before the comparison.
#[derive(Debug, Clone, Copy, PartialEq, Eq, Structural)]
pub struct Condition {
    /// Byte offset from start of structure
    pub byte_offset: u64,
    /// Bit offset within the byte (0-7, left to right)
    pub bit_offset: u8,
    /// Number of bits to compare (1-64)
    pub bits: u8,
    /// Expected value, as written in big-endian form
    pub value: u64,
    /// Bit order of the condition
    pub bit_order: BitOrder,
}

/// An offset to start reading records at, chosen when all its conditions hold.
#[derive(Debug, Clone)]
pub struct ConditionalOffset {
    /// Target offset to use if conditions match
    pub offset: u64,
    /// List of conditions that must all be satisfied
    pub conditions: Vec<Condition>,
}

/// Metadata about the schema
#[derive(Debug, Clone, Default)]
pub struct Metadata {
    /// Name of the schema
    pub name: String,
    /// Description of the schema
    pub description: String,
}

/// A single field definition.
#[derive(Debug)]
pub struct Field {
    pub bits: u32,
    pub description: String,
    pub bit_order: BitOrder,
    pub skip_if_not: Vec<Condition>,
    pub skip_frequency_analysis: bool,
}

/// A nested item: either a field or a group.
#[derive(Debug)]
#[non_exhaustive]
pub enum FieldDefinition {
    Field(Field),
    Group(Group),
}

/// A group of fields and nested groups, stored one after the other.
#[derive(Debug)]
pub struct Group {
    pub description: String,
    /// Named children, in schema order.
    pub fields: Vec<(String, FieldDefinition)>,
    /// Total bits of the children.
    pub bits: u32,
    /// The bit order of this group, inherited by children that set none.
    pub bit_order: BitOrder,
    pub skip_if_not: Vec<Condition>,
    pub skip_frequency_analysis: bool,
}

/// Number of bits of a field or group.
pub open spec fn def_bits(d: FieldDefinition) -> nat {
    match d {
        FieldDefinition::Field(f) => f.bits as nat,
        FieldDefinition::Group(g) => g.bits as nat,
    }
}

/// Sum of the bits of a list of children.
pub open spec fn children_bits(s: Seq<(String, FieldDefinition)>) -> nat
    decreases s.len(),
{
    if s.len() == 0 {
        0
    } else {
        children_bits(s.drop_last()) + def_bits(s.last().1)
    }
}

/// The order a child ends up with: its own, or its parent's if it has none.
pub open spec fn inherited_order(own: BitOrder, parent: BitOrder) -> BitOrder {
    if own == BitOrder::Default {
        parent
    } else {
        own
    }
}

/// `new` is `old` with the parent's bit order passed down through the whole subtree.
pub open spec fn children_propagated(old: Seq<(String, FieldDefinition)>, new: Seq<(String, FieldDefinition)>, parent: BitOrder) -> bool
    decreases old,
{
    &&& old.len() == new.len()
    &&& forall|i: int| 0 <= i < old.len() ==> {
        &&& #[trigger] new[i].0 == old[i].0
        &&& def_propagated(old[i].1, new[i].1, parent)
    }
}

/// `new` is the child `old` with the parent's bit order passed down through its subtree.
pub open spec fn def_propagated(old: FieldDefinition, new: FieldDefinition, parent: BitOrder) -> bool
    decreases old,
{
    match (old, new) {
        (FieldDefinition::Field(f), FieldDefinition::Field(g)) => {
            &&& g.bit_order == inherited_order(f.bit_order, parent)
            &&& g.bits == f.bits
            &&& g.description == f.description
            &&& g.skip_if_not@ == f.skip_if_not@
            &&& g.skip_frequency_analysis == f.skip_frequency_analysis
        },
        (FieldDefinition::Group(f), FieldDefinition::Group(g)) => {
            &&& g.bit_order == inherited_order(f.bit_order, parent)
            &&& g.bits == f.bits
            &&& g.description == f.description
            &&& g.skip_if_not@ == f.skip_if_not@
            &&& g.skip_frequency_analysis == f.skip_frequency_analysis
            &&& children_propagated(f.fields@, g.fields@, g.bit_order)
        },
        _ => false,
    }
}

/// Errors found while finishing a parsed schema.
#[derive(Debug)]
pub enum SchemaError {
    /// The version is not `1.0`.
    InvalidVersion,
    /// A group's `type` tag is not `group`; holds the tag found.
    InvalidGroupType(String),
}

/// Sums the bits of a list of children, if the sum fits in a `u32`.
fn sum_children_bits(fields: &Vec<(String, FieldDefinition)>) -> (r: Option<u32>)
    ensures
        r == (if children_bits(fields@) <= u32::MAX {
            Some(children_bits(fields@) as u32)
        } else {
            None::<u32>
        }),
{
    let mut total: u64 = 0;
    let mut i: usize = 0;
    while i < fields.len()
        invariant
            i <= fields@.len(),
            total == children_bits(fields@.subrange(0, i as int)),
            total <= u32::MAX,
        decreases fields@.len() - i,
    {
        let b = match &fields[i].1 {
            FieldDefinition::Field(f) => f.bits,
            FieldDefinition::Group(g) => g.bits,
        };
        proof {
            let s = fields@.subrange(0, i + 1);
            assert(s.drop_last() =~= fields@.subrange(0, i as int));
        }
        if total + (b as u64) > u32::MAX as u64 {
            proof {
                lemma_children_bits_prefix_mono(fields@, i + 1);
            }
            return None;
        }
        total = total + b as u64;
        i = i + 1;
    }
    assert(fields@.subrange(0, i as int) =~= fields@);
    Some(total as u32)
}

/// The bits of a prefix of the children are at most the bits of all of them.
proof fn lemma_children_bits_prefix_mono(s: Seq<(String, FieldDefinition)>, k: int)
    requires
        0 <= k <= s.len(),
    ensures
        children_bits(s.subrange(0, k)) <= children_bits(s),
    decreases s.len() - k,
{
    if k < s.len() {
        lemma_children_bits_prefix_mono(s, k + 1);
        assert(s.subrange(0, k + 1).drop_last() =~= s.subrange(0, k));
    } else {
        assert(s.subrange(0, k) =~= s);
    }
}

/// Whether the bits of a list of children add up to a value that fits in a `u32`.
pub fn children_bits_fit(fields: &Vec<(String, FieldDefinition)>) -> (r: bool)
    ensures
        r == (children_bits(fields@) <= u32::MAX),
{
    sum_children_bits(fields).is_some()
}

/// Passes `parent_bit_order` down to the children of `group` that have no order
/// of their own, and recursively from each child group to its children.
pub fn propagate_bit_order(group: &mut Group, parent_bit_order: BitOrder)
    ensures
        final(group).bits == old(group).bits,
        final(group).description == old(group).description,
        final(group).bit_order == old(group).bit_order,
        final(group).skip_if_not@ == old(group).skip_if_not@,
        final(group).skip_frequency_analysis == old(group).skip_frequency_analysis,
        children_propagated(old(group).fields@, final(group).fields@, parent_bit_order),
    decreases *old(group),
{
    let ghost orig = group.fields@;
    let mut old_fields: Vec<(String, FieldDefinition)> = Vec::new();
    std::mem::swap(&mut old_fields, &mut group.fields);
    let ghost mut k: int = 0;
    while old_fields.len() > 0
        invariant
            k <= orig.len(),
            old_fields@ == orig.subrange(k, orig.len() as int),
            group.fields@.len() == k,
            group.bits == old(group).bits,
            group.description == old(group).description,
            group.bit_order == old(group).bit_order,
            group.skip_if_not@ == old(group).skip_if_not@,
            group.skip_frequency_analysis == old(group).skip_frequency_analysis,
            orig == old(group).fields@,
            forall|i: int| 0 <= i < k ==> {
                &&& #[trigger] group.fields@[i].0 == orig[i].0
                &&& def_propagated(orig[i].1, group.fields@[i].1, parent_bit_order)
            },
        decreases old_fields@.len(),
    {
        assert(old_fields@.len() > 0);
        assert(k < orig.len());
        let (name, def) = old_fields.remove(0);
        assert(orig[k] == (name, def));
        let ghost prev = group.fields@;
        let new_def = match def {
            FieldDefinition::Field(mut f) => {
                if f.bit_order == BitOrder::Default {
                    f.bit_order = parent_bit_order;
                }
                FieldDefinition::Field(f)
            },
            FieldDefinition::Group(mut g) => {
                let o = if g.bit_order == BitOrder::Default {
                    parent_bit_order
                } else {
                    g.bit_order
                };
                assert(decreases_to!(*old(group) => g)) by {
                    assert(decreases_to!(old(group).fields => old(group).fields@));
                    assert(decreases_to!(old(group).fields@ => old(group).fields@[k]));
                };
                propagate_bit_order(&mut g, o);
                g.bit_order = o;
                FieldDefinition::Group(g)
            },
        };
        assert(def_propagated(orig[k].1, new_def, parent_bit_order));
        let ghost entry = (name, new_def);
        group.fields.push((name, new_def));
        proof {
            assert forall|i: int| 0 <= i < k + 1 implies {
                &&& #[trigger] group.fields@[i].0 == orig[i].0
                &&& def_propagated(orig[i].1, group.fields@[i].1, parent_bit_order)
            } by {
                if i < k {
                    assert(group.fields@[i] == prev[i]);
                    assert(prev[i].0 == orig[i].0);
                    assert(def_propagated(orig[i].1, prev[i].1, parent_bit_order));
                } else {
                    assert(group.fields@[i] == entry);
                }
                assert(group.fields@[i].0 == orig[i].0);
                assert(def_propagated(orig[i].1, group.fields@[i].1, parent_bit_order));
            }
            k = k + 1;
        }
        assert(old_fields@ =~= orig.subrange(k, orig.len() as int));
    }
    assert(k == orig.len());
}

impl Group {
    /// Builds a group from its parsed parts.
    ///
    /// The tag must be `group`. The group's bits are the sum of its children's
    /// bits, and its bit order is passed down to the children that set none.
    pub fn from_parts(
        type_tag: String,
        description: String,
        bit_order: BitOrder,
        fields: Vec<(String, FieldDefinition)>,
        skip_if_not: Vec<Condition>,
        skip_frequency_analysis: bool,
    ) -> (r: Result<Group, SchemaError>)
        requires
            children_bits(fields@) <= u32::MAX,
        ensures
            type_tag@ != "group"@ ==> r == Err::<Group, SchemaError>(SchemaError::InvalidGroupType(type_tag)),
            type_tag@ == "group"@ ==> (r matches Ok(g) && {
                &&& g.bits == children_bits(fields@)
                &&& g.bit_order == bit_order
                &&& g.description == description
                &&& g.skip_if_not@ == skip_if_not@
                &&& g.skip_frequency_analysis == skip_frequency_analysis
                &&& children_propagated(fields@, g.fields@, bit_order)
            }),
    {
        let expected = <String as vstd::string::StringExecFns>::from_str("group");
        if !(type_tag == expected) {
            return Err(SchemaError::InvalidGroupType(type_tag));
        }
        let bits = match sum_children_bits(&fields) {
            Some(b) => b,
            None => 0,
        };
        let mut group = Group {
            description,
            fields,
            bits,
            bit_order,
            skip_if_not,
            skip_frequency_analysis,
        };
        propagate_bit_order(&mut group, bit_order);
        Ok(group)
    }
}

/// A complete schema: the layout of one record, how records are located in a
/// file, and which alternative layouts of the record's data to compare.
#[derive(Debug)]
pub struct Schema {
    /// Schema version. Only `1.0` is supported.
    pub version: String,
    /// User-provided information about the schema.
    pub metadata: Metadata,
    /// Whether bits are taken from the high end (`Msb`, also for `Default`) or
    /// the low end (`Lsb`) of each byte first.
    pub bit_order: BitOrder,
    /// Offsets at which records start, chosen by conditions on the file's bytes.
    pub conditional_offsets: Vec<ConditionalOffset>,
    /// Comparisons to make between layouts of the data.
    pub analysis: AnalysisConfig,
    /// The root group, describing one record.
    pub root: Group,
}

/// The comparisons to make between alternative layouts of the data.
#[derive(Debug)]
pub struct AnalysisConfig {
    /// Comparisons of two lists of fields or groups, concatenated.
    pub split_groups: Vec<SplitComparison>,
    /// Comparisons of a baseline layout against custom layouts.
    pub compare_groups: Vec<CustomComparison>,
}

/// A comparison of two lists of fields or groups, each laid out as the
/// concatenation of the named fields' data.
#[derive(Debug)]
pub struct SplitComparison {
    /// Friendly name of the comparison.
    pub name: String,
    /// Names of the fields of the baseline layout.
    pub group_1: Vec<String>,
    /// Names of the fields of the compared layout.
    pub group_2: Vec<String>,
    /// Description of the comparison.
    pub description: String,
}

/// A comparison of a baseline layout against named custom layouts.
#[derive(Debug)]
pub struct CustomComparison {
    /// Unique identifier of the comparison.
    pub name: String,
    /// The baseline layout.
    pub baseline: Vec<GroupComponent>,
    /// The compared layouts, by name, in schema order.
    pub comparisons: Vec<(String, Vec<GroupComponent>)>,
    /// Human-readable description.
    pub description: String,
}

/// A piece of a custom layout.
#[derive(Debug)]
pub enum GroupComponent {
    /// All values of one field, one after the other.
    Array(GroupComponentArray),
    /// Components repeated, one value each per round, until no data is left.
    Struct(GroupComponentStruct),
    /// Constant bits; only within a struct.
    Padding(GroupComponentPadding),
    /// One value of a field; only within a struct.
    Field(GroupComponentField),
    /// Bits of a field passed over; only within a struct.
    Skip(GroupComponentSkip),
}

/// All values of one field, or a slice of `bits` bits at `offset` of each value.
///
/// `bits: 0` stands for the field's own length. After each value, reading
/// continues at the next value of the field, whatever slice was read.
#[derive(Debug, Clone)]
pub struct GroupComponentArray {
    /// Name of the field to take the data from.
    pub field: String,
    /// Bits of each value to pass over before reading.
    pub offset: u32,
    /// Number of bits to read of each value (0: the field's length).
    pub bits: u32,
}

impl GroupComponentArray {
    /// The number of bits to read of each value: `bits`, or the field's length
    /// when `bits` is 0.
    pub fn get_bits(&self, field: &crate::analyzer::AnalyzerFieldState) -> (r: u32)
        ensures
            r == (if self.bits == 0 { field.lenbits } else { self.bits }),
    {
        if self.bits == 0 {
            field.lenbits
        } else {
            self.bits
        }
    }
}

/// Components repeated in rounds until a round writes no field value.
#[derive(Debug)]
pub struct GroupComponentStruct {
    /// The components of one round.
    pub fields: Vec<GroupComponent>,
}

/// Constant padding bits.
#[derive(Debug, Clone, Copy, PartialEq, Eq, Structural)]
pub struct GroupComponentPadding {
    /// Number of bits to insert.
    pub bits: u8,
    /// Value to insert in those bits.
    pub value: u8,
}

/// Bits of a field passed over.
#[derive(Debug, Clone)]
pub struct GroupComponentSkip {
    /// Name of the field to skip bits of.
    pub field: String,
    /// Number of bits to skip.
    pub bits: u32,
}

/// One value of a field.
#[derive(Debug, Clone)]
pub struct GroupComponentField {
    /// Name of the field.
    pub field: String,
    /// Number of bits to read (0: the field's length, once set by `set_bits`).
    pub bits: u32,
}

impl GroupComponentField {
    /// Sets the number of bits to `default`, unless it was given explicitly.
    pub fn set_bits(&mut self, default: u32)
        ensures
            final(self).field == old(self).field,
            final(self).bits == (if old(self).bits == 0 { default } else { old(self).bits }),
    {
        if self.bits == 0 {
            self.bits = default;
        }
    }
}

impl Schema {
    /// Builds a schema from its parsed parts, checking that the version is `1.0`.
    pub fn from_parts(
        version: String,
        metadata: Metadata,
        bit_order: BitOrder,
        conditional_offsets: Vec<ConditionalOffset>,
        analysis: AnalysisConfig,
        root: Group,
    ) -> (r: Result<Schema, SchemaError>)
        ensures
            version@ != "1.0"@ ==> r matches Err(SchemaError::InvalidVersion),
            version@ == "1.0"@ ==> (r matches Ok(sc) && {
                &&& sc.version@ == version@
                &&& sc.metadata == metadata
                &&& sc.bit_order == bit_order
                &&& sc.conditional_offsets@ == conditional_offsets@
                &&& sc.analysis == analysis
                &&& sc.root == root
            }),
    {
        let expected = <String as vstd::string::StringExecFns>::from_str("1.0");
        if !(version == expected) {
            return Err(SchemaError::InvalidVersion);
        }
        Ok(Schema { version, metadata, bit_order, conditional_offsets, analysis, root })
    }
}

/// The path of a child named `name` under the path `parent`: the names joined
/// with `.`.
pub open spec fn join_path(parent: Seq<char>, name: Seq<char>) -> Seq<char> {
    if parent.len() == 0 {
        name
    } else {
        parent + seq!['.'] + name
    }
}

/// The paths of the fields and groups below `g`, from its child `i` on, in
/// schema order: each child's path, followed by the paths below it when it is a
/// group.
pub open spec fn children_paths(g: Group, i: nat, parent: Seq<char>) -> Seq<Seq<char>>
    decreases g, g.fields@.len() - i,
{
    if i >= g.fields@.len() {
        Seq::empty()
    } else {
        let path = join_path(parent, g.fields@[i as int].0@);
        match g.fields@[i as int].1 {
            FieldDefinition::Field(_) => seq![path] + children_paths(g, i + 1, parent),
            FieldDefinition::Group(cg) => {
                proof {
                    assert(decreases_to!(g.fields => g.fields@));
                    assert(decreases_to!(g.fields@ => g.fields@[i as int]));
                }
                seq![path] + children_paths(cg, 0, path) + children_paths(g, i + 1, parent)
            },
        }
    }
}

/// The views of a list of strings.
pub open spec fn string_views(v: Seq<String>) -> Seq<Seq<char>> {
    Seq::new(v.len(), |i: int| v[i]@)
}

impl Group {
    /// Appends to `paths` the paths of the fields and groups below this group, in
    /// schema order, under the path `parent_path`.
    fn collect_field_paths(&self, paths: &mut Vec<String>, parent_path: &String)
        ensures
            string_views(final(paths)@) == string_views(old(paths)@) + children_paths(*self, 0, parent_path@),
        decreases *self, self.fields@.len() + 1,
    {
        let ghost start = string_views(paths@);
        let mut i: usize = 0;
        assert(string_views(paths@) =~= start);
        while i < self.fields.len()
            invariant
                i <= self.fields@.len(),
                start + children_paths(*self, 0, parent_path@)
                    == string_views(paths@) + children_paths(*self, i as nat, parent_path@),
            decreases self.fields@.len() - i,
        {
            let name = &self.fields[i].0;
            let full_path = if parent_path.as_str().is_empty() {
                name.clone()
            } else {
                let mut p = parent_path.clone();
                p.append(".");
                p.append(name.as_str());
                proof {
                    reveal_strlit(".");
                }
                p
            };
            assert(full_path@ == join_path(parent_path@, name@));
            let ghost before = string_views(paths@);
            let ghost rest = children_paths(*self, (i + 1) as nat, parent_path@);
            match &self.fields[i].1 {
                FieldDefinition::Field(_) => {
                    paths.push(full_path);
                    proof {
                        assert(string_views(paths@) =~= before.push(full_path@));
                        assert(children_paths(*self, i as nat, parent_path@) == seq![full_path@] + rest);
                        assert(before + (seq![full_path@] + rest) =~= before.push(full_path@) + rest);
                    }
                },
                FieldDefinition::Group(g) => {
                    let sub_parent = full_path.clone();
                    paths.push(full_path);
                    let ghost mid = string_views(paths@);
                    proof {
                        assert(mid =~= before.push(sub_parent@));
                        assert(decreases_to!(self.fields => self.fields@));
                        assert(decreases_to!(self.fields@ => self.fields@[i as int]));
                    }
                    g.collect_field_paths(paths, &sub_parent);
                    proof {
                        let below = children_paths(*g, 0, sub_parent@);
                        assert(children_paths(*self, i as nat, parent_path@) == seq![sub_parent@] + below + rest);
                        assert(before + (seq![sub_parent@] + below + rest) =~= before.push(sub_parent@) + below + rest);
                    }
                },
            }
            i = i + 1;
        }
        assert(string_views(paths@) + children_paths(*self, i as nat, parent_path@) =~= string_views(paths@));
    }
}

impl Schema {
    /// The paths of all fields and groups of the schema, in schema order: each
    /// child of a group is listed, then, for a group, the paths below it. A path
    /// is the names from the root joined with `.`.
    pub fn ordered_field_and_group_paths(&self) -> (paths: Vec<String>)
        ensures
            string_views(paths@) == children_paths(self.root, 0, Seq::empty()),
    {
        let mut paths: Vec<String> = Vec::new();
        let root_path = String::new();
        self.root.collect_field_paths(&mut paths, &root_path);
        assert(string_views(Seq::<String>::empty()) =~= Seq::<Seq<char>>::empty());
        assert(Seq::<Seq<char>>::empty() + children_paths(self.root, 0, Seq::empty()) =~= children_paths(self.root, 0, Seq::empty()));
        paths
    }
}

/// No field or group of the list, at any depth, is left with the `Default` order.
pub open spec fn no_default_order(fields: Seq<(String, FieldDefinition)>) -> bool
    decreases fields,
{
    forall|i: int| 0 <= i < fields.len() ==> def_has_order(#[trigger] fields[i].1)
}

/// The field or group, and everything below it, has an order other than `Default`.
pub open spec fn def_has_order(d: FieldDefinition) -> bool
    decreases d,
{
    match d {
        FieldDefinition::Field(f) => f.bit_order != BitOrder::Default,
        FieldDefinition::Group(g) => g.bit_order != BitOrder::Default && no_default_order(g.fields@),
    }
}

/// Once an order other than `Default` is passed down, every field and group
/// below ends up with an order other than `Default`: its own, or the nearest one
/// set above it.
pub proof fn lemma_propagation_resolves_orders(
    old: Seq<(String, FieldDefinition)>,
    new: Seq<(String, FieldDefinition)>,
    parent: BitOrder,
)
    requires
        children_propagated(old, new, parent),
        parent != BitOrder::Default,
    ensures
        no_default_order(new),
    decreases old,
{
    assert forall|i: int| 0 <= i < new.len() implies def_has_order(#[trigger] new[i].1) by {
        assert(new[i].0 == old[i].0);
        assert(def_propagated(old[i].1, new[i].1, parent));
        lemma_def_propagation_resolves(old[i].1, new[i].1, parent);
    }
}

/// The child-level step of `lemma_propagation_resolves_orders`.
proof fn lemma_def_propagation_resolves(old: FieldDefinition, new: FieldDefinition, parent: BitOrder)
    requires
        def_propagated(old, new, parent),
        parent != BitOrder::Default,
    ensures
        def_has_order(new),
    decreases old,
{
    match (old, new) {
        (FieldDefinition::Group(f), FieldDefinition::Group(g)) => {
            assert(decreases_to!(f => f.fields));
            assert(decreases_to!(f.fields => f.fields@));
            lemma_propagation_resolves_orders(f.fields@, g.fields@, g.bit_order);
        },
        _ => {},
    }
}

} // verus!
