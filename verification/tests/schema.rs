use struct_compression_analyzer::analyzer::AnalyzerFieldState;
use struct_compression_analyzer::bits::BitWriterContainer;
use struct_compression_analyzer::schema::{
    AnalysisConfig, BitOrder, Field, FieldDefinition, Group, GroupComponentArray,
    GroupComponentField, Metadata, Schema, SchemaError,
};

fn field(bits: u32, bit_order: BitOrder) -> FieldDefinition {
    FieldDefinition::Field(Field {
        bits,
        description: String::new(),
        bit_order,
        skip_if_not: Vec::new(),
        skip_frequency_analysis: false,
    })
}

fn group(bit_order: BitOrder, fields: Vec<(&str, FieldDefinition)>) -> Group {
    Group::from_parts(
        "group".to_string(),
        String::new(),
        bit_order,
        fields.into_iter().map(|(n, d)| (n.to_string(), d)).collect(),
        Vec::new(),
        false,
    )
    .unwrap()
}

fn empty_analysis() -> AnalysisConfig {
    AnalysisConfig {
        split_groups: Vec::new(),
        compare_groups: Vec::new(),
    }
}

fn make_schema(version: &str, bit_order: BitOrder, root: Group) -> Result<Schema, SchemaError> {
    Schema::from_parts(
        version.to_string(),
        Metadata::default(),
        bit_order,
        Vec::new(),
        empty_analysis(),
        root,
    )
}

fn child<'a>(g: &'a Group, name: &str) -> &'a FieldDefinition {
    &g.fields.iter().find(|(n, _)| n == name).expect("child").1
}

fn field_order(d: &FieldDefinition) -> BitOrder {
    match d {
        FieldDefinition::Field(f) => f.bit_order,
        _ => panic!("Expected field"),
    }
}

fn as_group(d: &FieldDefinition) -> &Group {
    match d {
        FieldDefinition::Group(g) => g,
        _ => panic!("Expected group"),
    }
}

#[test]
fn supports_version_10() {
    let schema = make_schema("1.0", BitOrder::Msb, group(BitOrder::Default, Vec::new())).unwrap();
    assert_eq!(schema.version, "1.0");
    assert_eq!(schema.bit_order, BitOrder::Msb);
}

#[test]
fn rejects_unsupported_version() {
    assert!(make_schema("2.0", BitOrder::Default, group(BitOrder::Default, Vec::new())).is_err());
}

#[test]
fn rejects_group_with_wrong_type_tag() {
    let result = Group::from_parts(
        "array".to_string(),
        String::new(),
        BitOrder::Default,
        Vec::new(),
        Vec::new(),
        false,
    );
    assert!(matches!(result, Err(SchemaError::InvalidGroupType(tag)) if tag == "array"));
}

#[test]
fn supports_nested_groups() {
    let header = group(BitOrder::Default, vec![("mode", field(2, BitOrder::Default)), ("partition", field(4, BitOrder::Default))]);
    let r = group(BitOrder::Default, vec![("R0", field(5, BitOrder::Default)), ("R1", field(5, BitOrder::Default))]);
    let colors = group(BitOrder::Default, vec![("r", FieldDefinition::Group(r))]);
    let root = group(
        BitOrder::Default,
        vec![("header", FieldDefinition::Group(header)), ("colors", FieldDefinition::Group(colors))],
    );
    let schema = make_schema("1.0", BitOrder::Msb, root).unwrap();
    assert_eq!(as_group(child(&schema.root, "header")).fields.len(), 2);
    let colors = as_group(child(&schema.root, "colors"));
    assert_eq!(as_group(child(colors, "r")).fields.len(), 2);
    assert_eq!(schema.bit_order, BitOrder::Msb);
}

#[test]
fn calculates_group_bits_from_children() {
    let subgroup = group(BitOrder::Default, vec![("c", field(2, BitOrder::Default)), ("d", field(2, BitOrder::Default))]);
    let root = group(
        BitOrder::Default,
        vec![("a", field(4, BitOrder::Default)), ("b", field(8, BitOrder::Default)), ("subgroup", FieldDefinition::Group(subgroup))],
    );
    let schema = make_schema("1.0", BitOrder::Default, root).unwrap();
    assert_eq!(schema.root.bits, 16);
    assert_eq!(as_group(child(&schema.root, "subgroup")).bits, 4);
}

#[test]
fn inherits_bit_order_from_parent() {
    let subgroup = group(BitOrder::Default, vec![("c", field(2, BitOrder::Default)), ("d", field(2, BitOrder::Default))]);
    let root = group(
        BitOrder::Lsb,
        vec![("a", field(4, BitOrder::Default)), ("b", field(8, BitOrder::Default)), ("subgroup", FieldDefinition::Group(subgroup))],
    );
    let schema = make_schema("1.0", BitOrder::Msb, root).unwrap();
    assert_eq!(field_order(child(&schema.root, "a")), BitOrder::Lsb);
    assert_eq!(field_order(child(&schema.root, "b")), BitOrder::Lsb);
    let g = as_group(child(&schema.root, "subgroup"));
    assert_eq!(g.bit_order, BitOrder::Lsb);
    assert_eq!(field_order(child(g, "c")), BitOrder::Lsb);
    assert_eq!(field_order(child(g, "d")), BitOrder::Lsb);
}

#[test]
fn preserves_explicit_bit_order_in_children() {
    let subgroup = group(BitOrder::Msb, vec![("c", field(2, BitOrder::Default)), ("d", field(2, BitOrder::Default))]);
    let root = group(
        BitOrder::Lsb,
        vec![("a", field(4, BitOrder::Default)), ("b", field(8, BitOrder::Msb)), ("subgroup", FieldDefinition::Group(subgroup))],
    );
    let schema = make_schema("1.0", BitOrder::Msb, root).unwrap();
    assert_eq!(field_order(child(&schema.root, "a")), BitOrder::Lsb);
    assert_eq!(field_order(child(&schema.root, "b")), BitOrder::Msb);
    let g = as_group(child(&schema.root, "subgroup"));
    assert_eq!(g.bit_order, BitOrder::Msb);
    assert_eq!(field_order(child(g, "c")), BitOrder::Msb);
    assert_eq!(field_order(child(g, "d")), BitOrder::Msb);
}

#[test]
fn uses_default_bit_order_when_not_specified() {
    let root = group(BitOrder::Default, vec![("a", field(4, BitOrder::Default)), ("b", field(8, BitOrder::Default))]);
    let schema = make_schema("1.0", BitOrder::Default, root).unwrap();
    assert_eq!(field_order(child(&schema.root, "a")), BitOrder::Default);
    assert_eq!(field_order(child(&schema.root, "b")), BitOrder::Default);
}

#[test]
fn accepts_minimal_valid_schema() {
    let schema = make_schema("1.0", BitOrder::Default, group(BitOrder::Default, Vec::new())).unwrap();
    assert_eq!(schema.version, "1.0");
    assert!(schema.root.fields.is_empty());
}

#[test]
fn handles_empty_analysis() {
    let schema = make_schema("1.0", BitOrder::Default, group(BitOrder::Default, Vec::new())).unwrap();
    assert!(schema.analysis.split_groups.is_empty());
}

#[test]
fn orders_paths_like_the_schema() {
    let header = group(BitOrder::Default, vec![("mode", field(2, BitOrder::Default)), ("partition", field(4, BitOrder::Default))]);
    let colors = group(BitOrder::Default, vec![("r", field(5, BitOrder::Default)), ("g", field(5, BitOrder::Default)), ("b", field(5, BitOrder::Default))]);
    let root = group(
        BitOrder::Default,
        vec![("header", FieldDefinition::Group(header)), ("colors", FieldDefinition::Group(colors))],
    );
    let schema = make_schema("1.0", BitOrder::Default, root).unwrap();
    assert_eq!(
        schema.ordered_field_and_group_paths(),
        vec!["header", "header.mode", "header.partition", "colors", "colors.r", "colors.g", "colors.b"]
    );
}

#[test]
fn resolves_default_bit_order() {
    assert_eq!(BitOrder::Default.get_with_default_resolve(), BitOrder::Msb);
    assert_eq!(BitOrder::Msb.get_with_default_resolve(), BitOrder::Msb);
    assert_eq!(BitOrder::Lsb.get_with_default_resolve(), BitOrder::Lsb);
    assert_eq!(BitOrder::default(), BitOrder::Default);
}

#[test]
fn field_component_bits_default_to_the_field() {
    let mut explicit = GroupComponentField {
        field: "x".to_string(),
        bits: 3,
    };
    explicit.set_bits(7);
    assert_eq!(explicit.bits, 3);
    let mut implicit = GroupComponentField {
        field: "x".to_string(),
        bits: 0,
    };
    implicit.set_bits(7);
    assert_eq!(implicit.bits, 7);
}

#[test]
fn array_component_bits_default_to_the_field() {
    let state = AnalyzerFieldState {
        name: "x".to_string(),
        full_path: "x".to_string(),
        depth: 0,
        count: 0,
        lenbits: 12,
        writer: BitWriterContainer::new(true),
        bit_counts: Vec::new(),
        bit_order: BitOrder::Msb,
        value_counts: Default::default(),
    };
    let mut a = GroupComponentArray {
        field: "x".to_string(),
        offset: 0,
        bits: 0,
    };
    assert_eq!(a.get_bits(&state), 12);
    a.bits = 5;
    assert_eq!(a.get_bits(&state), 5);
}
