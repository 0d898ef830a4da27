use std::collections::HashMap;
use struct_compression_analyzer::analyzer::AnalyzerFieldState;
use struct_compression_analyzer::bits::BitWriterContainer;
use struct_compression_analyzer::comparison::compare_groups::generate_bytes::write_array::write_array;
use struct_compression_analyzer::comparison::compare_groups::generate_bytes::write_struct::write_struct;
use struct_compression_analyzer::comparison::compare_groups::generate_bytes::{
    generate_group_bytes, generate_output_for_compare_groups_entry, GenerateBytesError,
};
use struct_compression_analyzer::comparison::compare_groups::{check_item_counts, generate_comparison_bytes, GroupComparisonError};
use struct_compression_analyzer::results::split_group_bytes;
use struct_compression_analyzer::schema::{
    BitOrder, CustomComparison, GroupComponent, GroupComponentArray, GroupComponentField,
    GroupComponentPadding, GroupComponentSkip, GroupComponentStruct,
};

const TEST_FIELD_NAME: &str = "test_field";

/// A single field state holding `data`, written in `data_bit_order`.
fn create_mock_field_states(
    field_name: &str,
    data: &[u8],
    len_bits: u32,
    data_bit_order: BitOrder,
    field_bit_order: BitOrder,
) -> Vec<AnalyzerFieldState> {
    let writer = BitWriterContainer::with_owned_data(data, data_bit_order != BitOrder::Lsb);
    vec![AnalyzerFieldState {
        name: field_name.to_string(),
        full_path: field_name.to_string(),
        depth: 0,
        count: 0,
        lenbits: len_bits,
        writer,
        bit_counts: Vec::new(),
        bit_order: field_bit_order,
        value_counts: HashMap::new(),
    }]
}

fn array(offset: u32, bits: u32) -> GroupComponentArray {
    GroupComponentArray {
        field: TEST_FIELD_NAME.to_string(),
        offset,
        bits,
    }
}

fn field(bits: u32) -> GroupComponent {
    GroupComponent::Field(GroupComponentField {
        field: TEST_FIELD_NAME.to_string(),
        bits,
    })
}

fn output_of(mut writer: BitWriterContainer) -> Vec<u8> {
    writer.get_writer_buffer().to_vec()
}

#[test]
fn write_array_can_round_trip_lsb() {
    let input_data = [0b0010_0001, 0b1000_0100];
    let mut field_stats =
        create_mock_field_states(TEST_FIELD_NAME, &input_data, 4, BitOrder::Lsb, BitOrder::Lsb);
    let mut writer = BitWriterContainer::new(false);
    write_array(&mut field_stats, &mut writer, &array(0, 4)).unwrap();
    assert_eq!(input_data, output_of(writer).as_slice());
}

#[test]
fn write_array_can_round_trip_msb() {
    let input_data = [0b0001_0010, 0b0100_1000];
    let mut field_stats =
        create_mock_field_states(TEST_FIELD_NAME, &input_data, 4, BitOrder::Msb, BitOrder::Msb);
    let mut writer = BitWriterContainer::new(true);
    write_array(&mut field_stats, &mut writer, &array(0, 0)).unwrap();
    assert_eq!(input_data, output_of(writer).as_slice());
}

#[test]
fn write_array_can_read_slices() {
    let input_data = [0b0010_1101, 0b0000_1100];
    let expected_output = [0b00_11_00_11];
    let mut field_stats =
        create_mock_field_states(TEST_FIELD_NAME, &input_data, 4, BitOrder::Lsb, BitOrder::Lsb);
    let mut writer = BitWriterContainer::new(false);
    write_array(&mut field_stats, &mut writer, &array(2, 2)).unwrap();
    assert_eq!(expected_output, output_of(writer).as_slice());
}

fn single_field_struct_group_component(bits: u32) -> GroupComponentStruct {
    GroupComponentStruct {
        fields: vec![field(bits)],
    }
}

#[test]
fn write_struct_field_can_round_trip_lsb() {
    let input_data = [0b0010_0001, 0b1000_0100];
    let mut field_states =
        create_mock_field_states(TEST_FIELD_NAME, &input_data, 4, BitOrder::Lsb, BitOrder::Lsb);
    let mut writer = BitWriterContainer::new(false);
    write_struct(&mut field_states, &mut writer, &single_field_struct_group_component(0)).unwrap();
    assert_eq!(input_data, output_of(writer).as_slice());
}

#[test]
fn write_struct_field_can_round_trip_msb() {
    let input_data = [0b0001_0010, 0b0100_1000];
    let mut field_states =
        create_mock_field_states(TEST_FIELD_NAME, &input_data, 4, BitOrder::Msb, BitOrder::Msb);
    let mut writer = BitWriterContainer::new(true);
    write_struct(&mut field_states, &mut writer, &single_field_struct_group_component(0)).unwrap();
    assert_eq!(input_data, output_of(writer).as_slice());
}

#[test]
fn write_struct_field_can_read_slices_with_skip() {
    let input_data = [0b0010_1101, 0b0000_1100];
    let expected_output = [0b00_11_00_11];
    let mut field_states =
        create_mock_field_states(TEST_FIELD_NAME, &input_data, 4, BitOrder::Lsb, BitOrder::Lsb);
    let mut writer = BitWriterContainer::new(false);
    write_struct(
        &mut field_states,
        &mut writer,
        &GroupComponentStruct {
            fields: vec![
                GroupComponent::Skip(GroupComponentSkip {
                    field: TEST_FIELD_NAME.to_string(),
                    bits: 2,
                }),
                field(2),
            ],
        },
    )
    .unwrap();
    assert_eq!(expected_output, output_of(writer).as_slice());
}

fn padding_struct() -> GroupComponentStruct {
    GroupComponentStruct {
        fields: vec![GroupComponent::Padding(GroupComponentPadding {
            bits: 4,
            value: 0b1010,
        })],
    }
}

#[test]
fn write_struct_padding_writes_correct_bits_lsb() {
    let mut field_states =
        create_mock_field_states(TEST_FIELD_NAME, &[], 0, BitOrder::Lsb, BitOrder::Lsb);
    let mut writer = BitWriterContainer::new(false);
    write_struct(&mut field_states, &mut writer, &padding_struct()).unwrap();
    assert_eq!(output_of(writer), [0b0000_1010]);
}

#[test]
fn write_struct_padding_writes_correct_bits_msb() {
    let mut field_states =
        create_mock_field_states(TEST_FIELD_NAME, &[], 0, BitOrder::Msb, BitOrder::Msb);
    let mut writer = BitWriterContainer::new(true);
    write_struct(&mut field_states, &mut writer, &padding_struct()).unwrap();
    assert_eq!(output_of(writer), [0b1010_0000]);
}

#[test]
fn mod_can_write_array_component() {
    let input_data = [0b0010_0001, 0b1000_0100];
    let mut field_stats =
        create_mock_field_states(TEST_FIELD_NAME, &input_data, 4, BitOrder::Lsb, BitOrder::Lsb);
    let mut writer = BitWriterContainer::new(false);
    let components = vec![GroupComponent::Array(array(0, 4))];
    generate_output_for_compare_groups_entry(&mut field_stats, &mut writer, &components).unwrap();
    assert_eq!(input_data, output_of(writer).as_slice());
}

#[test]
fn mod_can_write_struct_component() {
    let input_data = [0b0010_0001, 0b1000_0100];
    let mut field_stats =
        create_mock_field_states(TEST_FIELD_NAME, &input_data, 4, BitOrder::Lsb, BitOrder::Lsb);
    let mut writer = BitWriterContainer::new(false);
    let components = vec![GroupComponent::Struct(single_field_struct_group_component(4))];
    generate_output_for_compare_groups_entry(&mut field_stats, &mut writer, &components).unwrap();
    assert_eq!(input_data, output_of(writer).as_slice());
}

#[test]
fn mod_can_write_multiple_components() {
    let input_data = [0b0010_0001, 0b1000_0100];
    let mut field_stats =
        create_mock_field_states(TEST_FIELD_NAME, &input_data, 4, BitOrder::Lsb, BitOrder::Lsb);
    let mut writer = BitWriterContainer::new(false);
    let components = vec![
        GroupComponent::Array(array(0, 4)),
        GroupComponent::Struct(single_field_struct_group_component(4)),
    ];
    generate_output_for_compare_groups_entry(&mut field_stats, &mut writer, &components).unwrap();
    assert_eq!(
        &[input_data[0], input_data[1], input_data[0], input_data[1]],
        output_of(writer).as_slice()
    );
}

#[test]
#[should_panic]
fn mod_panics_on_invalid_component_type() {
    let mut field_stats: Vec<AnalyzerFieldState> = Vec::new();
    let mut writer = BitWriterContainer::new(false);
    let components = vec![field(4)];
    generate_output_for_compare_groups_entry(&mut field_stats, &mut writer, &components).unwrap();
}

#[test]
fn top_level_field_is_refused_with_message() {
    let mut field_stats: Vec<AnalyzerFieldState> = Vec::new();
    let mut writer = BitWriterContainer::new(false);
    let components = vec![field(4)];
    match generate_output_for_compare_groups_entry(&mut field_stats, &mut writer, &components) {
        Err(GenerateBytesError::InvalidComponentType(msg)) => {
            assert_eq!(msg, "Only arrays and structs are allowed at top level")
        }
        other => panic!("unexpected result {other:?}"),
    }
}

#[test]
fn array_errors() {
    let data = [0xFFu8, 0x00];
    let mut states =
        create_mock_field_states(TEST_FIELD_NAME, &data, 4, BitOrder::Msb, BitOrder::Msb);
    let mut writer = BitWriterContainer::new(true);
    let missing = GroupComponentArray {
        field: "missing".to_string(),
        offset: 0,
        bits: 0,
    };
    assert!(matches!(
        write_array(&mut states, &mut writer, &missing),
        Err(GenerateBytesError::FieldNotFound(name)) if name == "missing"
    ));
    assert!(matches!(
        write_array(&mut states, &mut writer, &array(0, 65)),
        Err(GenerateBytesError::ReadError { bits: 65 })
    ));
    // A slice reaching past the last value fails to read.
    let mut writer = BitWriterContainer::new(true);
    assert!(matches!(
        write_array(&mut states, &mut writer, &array(2, 4)),
        Err(GenerateBytesError::ReadError { bits: 4 })
    ));
    // Values of no bits never run out.
    let mut empty_values =
        create_mock_field_states(TEST_FIELD_NAME, &data, 0, BitOrder::Msb, BitOrder::Msb);
    assert!(matches!(
        write_array(&mut empty_values, &mut writer, &array(0, 0)),
        Err(GenerateBytesError::NeverExhausted)
    ));
}

#[test]
fn struct_errors() {
    let data = [0xF0u8];
    let mut states =
        create_mock_field_states(TEST_FIELD_NAME, &data, 4, BitOrder::Msb, BitOrder::Msb);
    let mut writer = BitWriterContainer::new(true);
    let nested = GroupComponentStruct {
        fields: vec![GroupComponent::Array(array(0, 4))],
    };
    assert!(matches!(
        write_struct(&mut states, &mut writer, &nested),
        Err(GenerateBytesError::UnsupportedNestedComponent)
    ));
    let missing = GroupComponentStruct {
        fields: vec![GroupComponent::Field(GroupComponentField {
            field: "missing".to_string(),
            bits: 4,
        })],
    };
    assert!(matches!(
        write_struct(&mut states, &mut writer, &missing),
        Err(GenerateBytesError::FieldNotFound(name)) if name == "missing"
    ));
    let bad_padding = GroupComponentStruct {
        fields: vec![GroupComponent::Padding(GroupComponentPadding { bits: 2, value: 4 })],
    };
    assert!(matches!(
        write_struct(&mut states, &mut writer, &bad_padding),
        Err(GenerateBytesError::WriteError { bits: 2 })
    ));
    let too_wide = GroupComponentStruct {
        fields: vec![field(65)],
    };
    assert!(matches!(
        write_struct(&mut states, &mut writer, &too_wide),
        Err(GenerateBytesError::ReadError { bits: 65 })
    ));
}

#[test]
fn struct_rounds_stop_when_no_field_bits_are_written() {
    // Values of no bits write nothing, so the first round is the last.
    let mut zero_bits =
        create_mock_field_states(TEST_FIELD_NAME, &[0xF0], 0, BitOrder::Msb, BitOrder::Msb);
    let mut writer = BitWriterContainer::new(true);
    write_struct(&mut zero_bits, &mut writer, &single_field_struct_group_component(0)).unwrap();
    assert_eq!(output_of(writer), Vec::<u8>::new());
    // A skip alone writes nothing either, even where it lands on a byte boundary.
    let mut states =
        create_mock_field_states(TEST_FIELD_NAME, &[0xF0], 4, BitOrder::Msb, BitOrder::Msb);
    let aligned_skip = GroupComponentStruct {
        fields: vec![GroupComponent::Skip(GroupComponentSkip {
            field: TEST_FIELD_NAME.to_string(),
            bits: 8,
        })],
    };
    let mut writer = BitWriterContainer::new(true);
    write_struct(&mut states, &mut writer, &aligned_skip).unwrap();
    assert_eq!(output_of(writer), Vec::<u8>::new());
}

#[test]
fn struct_skip_past_the_end_ends_the_rounds() {
    // The second round skips past the data onto a byte boundary and reads
    // nothing more: the rounds stop with the one value read.
    let mut states =
        create_mock_field_states("F", &[0xAB, 0xCD], 8, BitOrder::Msb, BitOrder::Msb);
    let layout = GroupComponentStruct {
        fields: vec![
            GroupComponent::Skip(GroupComponentSkip {
                field: "F".to_string(),
                bits: 8,
            }),
            GroupComponent::Field(GroupComponentField {
                field: "F".to_string(),
                bits: 8,
            }),
        ],
    };
    let mut writer = BitWriterContainer::new(true);
    write_struct(&mut states, &mut writer, &layout).unwrap();
    assert_eq!(output_of(writer), [0xCD]);
}

#[test]
fn struct_interleaves_fields() {
    // Two 4-bit fields, one value of each per round.
    let mut states = create_mock_field_states("a", &[0x12], 4, BitOrder::Msb, BitOrder::Msb);
    states.extend(create_mock_field_states("b", &[0x34], 4, BitOrder::Msb, BitOrder::Msb));
    let layout = GroupComponentStruct {
        fields: vec![
            GroupComponent::Field(GroupComponentField {
                field: "a".to_string(),
                bits: 0,
            }),
            GroupComponent::Field(GroupComponentField {
                field: "b".to_string(),
                bits: 0,
            }),
        ],
    };
    let mut writer = BitWriterContainer::new(true);
    write_struct(&mut states, &mut writer, &layout).unwrap();
    assert_eq!(output_of(writer), [0x13, 0x24]);
}

#[test]
fn group_bytes_are_msb_first_and_padded() {
    let mut states =
        create_mock_field_states(TEST_FIELD_NAME, &[0b1011_0000], 4, BitOrder::Msb, BitOrder::Msb);
    let bytes = generate_group_bytes(&[GroupComponent::Array(array(0, 3))], &mut states).unwrap();
    assert_eq!(bytes, vec![0b1010_0000]);
}

#[test]
fn comparison_bytes_in_schema_order() {
    let mut states =
        create_mock_field_states(TEST_FIELD_NAME, &[0b1111_0000], 8, BitOrder::Msb, BitOrder::Msb);
    let comparison = CustomComparison {
        name: "multi_group".to_string(),
        baseline: vec![GroupComponent::Array(array(0, 8))],
        comparisons: vec![
            ("half_bits".to_string(), vec![GroupComponent::Array(array(0, 4))]),
            ("full_bits".to_string(), vec![GroupComponent::Array(array(0, 8))]),
        ],
        description: String::new(),
    };
    let (baseline, parts) = generate_comparison_bytes(&comparison, &mut states).unwrap();
    assert_eq!(baseline, vec![0b1111_0000]);
    assert_eq!(parts.len(), 2);
    assert_eq!(parts[0].0, "half_bits");
    assert_eq!(parts[0].1, vec![0b1111_0000]);
    assert_eq!(parts[1].0, "full_bits");
    assert_eq!(parts[1].1, vec![0b1111_0000]);

    let broken = CustomComparison {
        name: "invalid_comp".to_string(),
        baseline: vec![GroupComponent::Array(GroupComponentArray {
            field: "nonexistent_field".to_string(),
            offset: 0,
            bits: 8,
        })],
        comparisons: vec![],
        description: String::new(),
    };
    assert!(matches!(
        generate_comparison_bytes(&broken, &mut states),
        Err((None, GenerateBytesError::FieldNotFound(_)))
    ));
}

#[test]
fn split_bytes_concatenate_named_fields() {
    let mut states = create_mock_field_states("r", &[0x01, 0x02], 8, BitOrder::Msb, BitOrder::Msb);
    states.extend(create_mock_field_states("g", &[0x03], 8, BitOrder::Msb, BitOrder::Msb));
    let names = vec!["g".to_string(), "missing".to_string(), "r".to_string()];
    assert_eq!(split_group_bytes(&mut states, &names), vec![0x03, 0x01, 0x02]);
}

#[test]
fn item_counts_must_match() {
    assert!(check_item_counts(2, 2).is_ok());
    assert!(matches!(
        check_item_counts(2, 3),
        Err(GroupComparisonError::InvalidItemCount { slices: 2, names: 3 })
    ));
}
