use std::collections::HashMap;
use struct_compression_analyzer::analyzer::{AddEntryError, SchemaAnalyzer};
use struct_compression_analyzer::schema::{
    AnalysisConfig, BitOrder, Condition, Field, FieldDefinition, Group, Metadata, Schema,
};

fn field(bits: u32) -> FieldDefinition {
    FieldDefinition::Field(Field {
        bits,
        description: String::new(),
        bit_order: BitOrder::Default,
        skip_if_not: Vec::new(),
        skip_frequency_analysis: false,
    })
}

fn group(bit_order: BitOrder, fields: Vec<(&str, FieldDefinition)>, skip_if_not: Vec<Condition>) -> Group {
    Group::from_parts(
        "group".to_string(),
        String::new(),
        bit_order,
        fields.into_iter().map(|(n, d)| (n.to_string(), d)).collect(),
        skip_if_not,
        false,
    )
    .unwrap()
}

fn make_schema(root: Group) -> Schema {
    Schema::from_parts(
        "1.0".to_string(),
        Metadata::default(),
        BitOrder::Default,
        Vec::new(),
        AnalysisConfig {
            split_groups: Vec::new(),
            compare_groups: Vec::new(),
        },
        root,
    )
    .unwrap()
}

fn condition(byte_offset: u64, bits: u8, value: u64) -> Condition {
    Condition {
        byte_offset,
        bit_offset: 0,
        bits,
        value,
        bit_order: BitOrder::Default,
    }
}

/// `id` (32 bits) and `nested` (an `lsb` group holding `value`, 8 bits).
fn create_test_schema() -> Schema {
    let nested = group(BitOrder::Lsb, vec![("value", field(8))], Vec::new());
    make_schema(group(
        BitOrder::Default,
        vec![("id", field(32)), ("nested", FieldDefinition::Group(nested))],
        Vec::new(),
    ))
}

fn flags_schema(bit_order: BitOrder) -> Schema {
    let flags = FieldDefinition::Field(Field {
        bits: 2,
        description: String::new(),
        bit_order,
        skip_if_not: Vec::new(),
        skip_frequency_analysis: false,
    });
    make_schema(group(BitOrder::Default, vec![("flags", flags)], Vec::new()))
}

#[test]
fn test_analyzer_initialization() {
    let schema = create_test_schema();
    let analyzer = SchemaAnalyzer::new(&schema);
    assert_eq!(analyzer.field_states.len(), 3, "Should have stats for 2 fields + 1 group");
}

#[test]
fn test_big_endian_bitorder() {
    let schema = flags_schema(BitOrder::Msb);
    let mut analyzer = SchemaAnalyzer::new(&schema);

    analyzer.add_entry(&[0b11000000]).unwrap();
    analyzer.add_entry(&[0b00000000]).unwrap();
    analyzer.add_entry(&[0b10000000]).unwrap();
    analyzer.add_entry(&[0b01000000]).unwrap();

    {
        let flags_field = analyzer.field_states.iter_mut().find(|s| s.name == "flags").unwrap();
        assert_eq!(flags_field.count, 4, "Should process 4 entries");
        assert_eq!(flags_field.bit_counts.len(), 2, "Should track 2 bits per field");

        let data = flags_field.writer.get_writer_buffer();
        assert_eq!(data[0], 0xC9_u8, "Combined bits should form 0xC9");

        let expected_counts = HashMap::from_iter([(0b11, 1), (0b00, 1), (0b10, 1), (0b01, 1)]);
        assert_eq!(flags_field.value_counts, expected_counts, "Value counts should match");

        for (x, stats) in flags_field.bit_counts.iter().enumerate() {
            assert_eq!(stats.zeros, 2, "Bit {} should have 2 zeros", x);
            assert_eq!(stats.ones, 2, "Bit {} should have 2 ones", x);
        }
    }

    analyzer.add_entry(&[0b01000000]).unwrap();
    let flags_field = analyzer.field_state("flags").unwrap();
    let expected_counts = HashMap::from_iter([(0b11, 1), (0b00, 1), (0b10, 1), (0b01, 2)]);
    assert_eq!(flags_field.value_counts, expected_counts, "Value counts should match");
}

#[test]
fn test_little_endian_bitorder() {
    let schema = flags_schema(BitOrder::Lsb);
    let mut analyzer = SchemaAnalyzer::new(&schema);

    analyzer.add_entry(&[0b11000000]).unwrap();
    analyzer.add_entry(&[0b00000000]).unwrap();
    analyzer.add_entry(&[0b10000000]).unwrap();
    analyzer.add_entry(&[0b01000000]).unwrap();

    analyzer.add_entry(&[0b10000000]).unwrap();
    let flags_field = analyzer.field_state("flags").unwrap();
    let expected_counts = HashMap::from_iter([(0b11, 1), (0b00, 1), (0b10, 1), (0b01, 2)]);
    assert_eq!(flags_field.value_counts, expected_counts, "Value counts should match");
}

#[test]
fn test_field_stats_structure() {
    let schema = create_test_schema();
    let analyzer = SchemaAnalyzer::new(&schema);

    let root_group = analyzer.field_state("id").unwrap();
    assert_eq!(root_group.name, "id");
    assert_eq!(root_group.full_path, "id");
    assert_eq!(root_group.depth, 0);
    assert_eq!(root_group.count, 0);
    assert_eq!(root_group.lenbits, 32);
    assert_eq!(root_group.bit_counts.len(), root_group.lenbits as usize);
    assert_eq!(root_group.bit_order, BitOrder::Msb);

    let id_field = analyzer.field_state("nested").unwrap();
    assert_eq!(id_field.full_path, "nested");
    assert_eq!(id_field.name, "nested");
    assert_eq!(id_field.depth, 0);
    assert_eq!(id_field.count, 0);
    assert_eq!(id_field.lenbits, 8);
    assert_eq!(id_field.bit_counts.len(), id_field.lenbits as usize);
    assert_eq!(id_field.bit_order, BitOrder::Lsb);

    let nested_value = analyzer.field_state("value").unwrap();
    assert_eq!(nested_value.full_path, "nested.value");
    assert_eq!(nested_value.name, "value");
    assert_eq!(nested_value.depth, 1);
    assert_eq!(nested_value.count, 0);
    assert_eq!(nested_value.lenbits, 8);
    assert_eq!(nested_value.bit_counts.len(), nested_value.lenbits as usize);
    assert_eq!(nested_value.bit_order, BitOrder::Lsb);
}

#[test]
fn skips_group_based_on_conditions() {
    let schema = make_schema(group(
        BitOrder::Default,
        vec![("dummy", field(8))],
        vec![condition(0, 8, 0x55)],
    ));
    let mut analyzer = SchemaAnalyzer::new(&schema);

    analyzer.add_entry(&[0x55]).unwrap();
    assert_eq!(analyzer.field_state("dummy").unwrap().count, 1);

    analyzer.add_entry(&[0xAA]).unwrap();
    assert_eq!(analyzer.field_state("dummy").unwrap().count, 1);

    analyzer.add_entry(&[0x55]).unwrap();
    assert_eq!(analyzer.field_state("dummy").unwrap().count, 2);
}

#[test]
fn skips_field_based_on_conditions() {
    let header = FieldDefinition::Field(Field {
        bits: 7,
        description: String::new(),
        bit_order: BitOrder::Default,
        skip_if_not: vec![condition(0, 1, 1)],
        skip_frequency_analysis: false,
    });
    let schema = make_schema(group(BitOrder::Default, vec![("header", header)], Vec::new()));
    let mut analyzer = SchemaAnalyzer::new(&schema);

    analyzer.add_entry(&[0b10000000]).unwrap();
    assert_eq!(analyzer.field_state("header").unwrap().count, 1);

    analyzer.add_entry(&[0b00000000]).unwrap();
    assert_eq!(analyzer.field_state("header").unwrap().count, 1);
}

#[test]
fn group_and_children_see_the_same_bits() {
    let nested = group(BitOrder::Default, vec![("a", field(4)), ("b", field(4))], Vec::new());
    let schema = make_schema(group(
        BitOrder::Default,
        vec![("pair", FieldDefinition::Group(nested)), ("tail", field(8))],
        Vec::new(),
    ));
    let mut analyzer = SchemaAnalyzer::new(&schema);
    analyzer.add_entry(&[0xAB, 0xCD]).unwrap();
    analyzer.add_entry(&[0x12, 0x34]).unwrap();
    let mut pair = analyzer.field_states.iter_mut().find(|s| s.name == "pair").unwrap();
    assert_eq!(pair.writer.get_writer_buffer(), &[0xAB, 0x12]);
    pair = analyzer.field_states.iter_mut().find(|s| s.name == "a").unwrap();
    assert_eq!(pair.writer.get_writer_buffer(), &[0xA1]);
    pair = analyzer.field_states.iter_mut().find(|s| s.name == "b").unwrap();
    assert_eq!(pair.writer.get_writer_buffer(), &[0xB2]);
    pair = analyzer.field_states.iter_mut().find(|s| s.name == "tail").unwrap();
    assert_eq!(pair.writer.get_writer_buffer(), &[0xCD, 0x34]);
    assert_eq!(analyzer.entries, vec![0xAB, 0xCD, 0x12, 0x34]);
}

#[test]
fn short_entry_changes_no_state() {
    let schema = make_schema(group(BitOrder::Default, vec![("a", field(8)), ("b", field(8))], Vec::new()));
    let mut analyzer = SchemaAnalyzer::new(&schema);
    assert!(matches!(analyzer.add_entry(&[0x01]), Err(AddEntryError::ReadFailed)));
    assert_eq!(analyzer.field_state("a").unwrap().count, 0);
    assert_eq!(analyzer.field_state("b").unwrap().count, 0);
}

#[test]
fn unreadable_condition_fails() {
    let schema = make_schema(group(
        BitOrder::Default,
        vec![("dummy", field(8))],
        vec![condition(4, 8, 0x55)],
    ));
    let mut analyzer = SchemaAnalyzer::new(&schema);
    assert!(matches!(analyzer.add_entry(&[0x55]), Err(AddEntryError::ReadFailed)));
}

#[test]
fn duplicate_names_keep_the_last_and_can_mismatch() {
    // `value` names both a 4-bit field and, later, an 8-bit one; the later wins.
    let inner = group(BitOrder::Default, vec![("value", field(8))], Vec::new());
    let schema = make_schema(group(
        BitOrder::Default,
        vec![("value", field(4)), ("inner", FieldDefinition::Group(inner))],
        Vec::new(),
    ));
    let mut analyzer = SchemaAnalyzer::new(&schema);
    assert_eq!(analyzer.field_states.len(), 2);
    assert_eq!(analyzer.field_state("value").unwrap().lenbits, 8);
    assert_eq!(analyzer.field_state("value").unwrap().full_path, "inner.value");
    // Both visits land on the same state, whose bit statistics fit the larger one.
    analyzer.add_entry(&[0xF0, 0x0F]).unwrap();
    assert_eq!(analyzer.field_state("value").unwrap().count, 2);

    // The other way round, the 8-bit value does not fit a 4-bit state.
    let inner = group(BitOrder::Default, vec![("value", field(4))], Vec::new());
    let schema = make_schema(group(
        BitOrder::Default,
        vec![("value", field(8)), ("inner", FieldDefinition::Group(inner))],
        Vec::new(),
    ));
    let mut analyzer = SchemaAnalyzer::new(&schema);
    assert!(matches!(
        analyzer.add_entry(&[0xF0, 0x0F]),
        Err(AddEntryError::FieldStateMismatch(name)) if name == "value"
    ));
    assert_eq!(analyzer.field_state("value").unwrap().count, 0);
}

#[test]
fn skip_frequency_analysis_counts_no_values() {
    let quiet = FieldDefinition::Field(Field {
        bits: 8,
        description: String::new(),
        bit_order: BitOrder::Default,
        skip_if_not: Vec::new(),
        skip_frequency_analysis: true,
    });
    let schema = make_schema(group(BitOrder::Default, vec![("quiet", quiet)], Vec::new()));
    let mut analyzer = SchemaAnalyzer::new(&schema);
    analyzer.add_entry(&[0x80]).unwrap();
    let state = analyzer.field_state("quiet").unwrap();
    assert_eq!(state.count, 1);
    assert!(state.value_counts.is_empty());
    assert_eq!(state.bit_counts[0].ones, 1);
    assert_eq!(state.bit_counts[1].zeros, 1);
}
