use struct_compression_analyzer::offset_evaluator::{
    conditions_read_length, matches_all_conditions, try_evaluate_offset,
};
use struct_compression_analyzer::schema::{BitOrder, Condition, ConditionalOffset};

fn condition(byte_offset: u64, bit_offset: u8, bits: u8, value: u64) -> Condition {
    Condition {
        byte_offset,
        bit_offset,
        bits,
        value,
        bit_order: BitOrder::Default,
    }
}

fn create_bc7_conditions() -> Vec<ConditionalOffset> {
    vec![ConditionalOffset {
        offset: 0x94,
        conditions: vec![condition(0x00, 0, 32, 0x44445320), condition(0x54, 0, 32, 0x44583130)],
    }]
}

#[test]
fn matches_valid_bc7_header() {
    let mut data = vec![0u8; 0x80 + 4];
    data[0x00..0x04].copy_from_slice(&[0x44, 0x44, 0x53, 0x20]);
    data[0x54..0x58].copy_from_slice(&[0x44, 0x58, 0x31, 0x30]);

    let conditions = create_bc7_conditions();
    assert_eq!(try_evaluate_offset(&conditions, &data), Some(0x94));
}

#[test]
fn rejects_invalid_dx10_header() {
    let mut data = vec![0u8; 0x80 + 4];
    data[0x00..0x04].copy_from_slice(&[0x44, 0x44, 0x53, 0x20]);
    data[0x54..0x58].copy_from_slice(&[0x41, 0x42, 0x43, 0x44]);

    let conditions = create_bc7_conditions();
    assert_eq!(try_evaluate_offset(&conditions, &data), None);
}

#[test]
fn handles_short_data() {
    let data = vec![0u8; 0x50];

    let conditions = create_bc7_conditions();
    assert_eq!(try_evaluate_offset(&conditions, &data), None);
}

#[test]
fn validates_bitstream_header() {
    let conditions = [ConditionalOffset {
        offset: 0,
        conditions: vec![condition(0, 4, 4, 0b1110), condition(1, 0, 8, 0xC0)],
    }];

    let valid_data = [0x0E, 0xC0, 0x00];
    assert!(matches_all_conditions(&conditions[0], &valid_data));

    let invalid_data = [0x0B, 0xC0, 0x00];
    assert!(!matches_all_conditions(&conditions[0], &invalid_data));
}

#[test]
fn first_matching_offset_wins() {
    let offsets = vec![
        ConditionalOffset {
            offset: 1,
            conditions: vec![condition(0, 0, 8, 0xFF)],
        },
        ConditionalOffset {
            offset: 2,
            conditions: vec![condition(0, 0, 8, 0xAB)],
        },
        ConditionalOffset {
            offset: 3,
            conditions: vec![],
        },
    ];
    assert_eq!(try_evaluate_offset(&offsets, &[0xAB]), Some(2));
    assert_eq!(try_evaluate_offset(&offsets, &[0x00]), Some(3));
}

#[test]
fn lsb_condition_compares_mirrored_bits() {
    let mut c = condition(0, 0, 4, 0b0001);
    c.bit_order = BitOrder::Lsb;
    let offsets = ConditionalOffset {
        offset: 0,
        conditions: vec![c],
    };
    // The first four bits are 1000, mirrored to 0001.
    assert!(matches_all_conditions(&offsets, &[0b1000_0000]));
    assert!(!matches_all_conditions(&offsets, &[0b0001_0000]));
}

#[test]
fn condition_past_end_or_too_wide_fails() {
    let past_end = ConditionalOffset {
        offset: 0,
        conditions: vec![condition(1, 4, 4, 0)],
    };
    assert!(!matches_all_conditions(&past_end, &[0x00]));
    let too_wide = ConditionalOffset {
        offset: 0,
        conditions: vec![condition(0, 0, 65, 0)],
    };
    assert!(!matches_all_conditions(&too_wide, &[0u8; 16]));
    let zero_bits = ConditionalOffset {
        offset: 0,
        conditions: vec![condition(4, 0, 0, 0)],
    };
    assert!(matches_all_conditions(&zero_bits, &[0x00]));
}

#[test]
fn read_length_covers_every_condition() {
    let offsets = create_bc7_conditions();
    assert_eq!(conditions_read_length(&offsets), Some(0x58));
    assert_eq!(conditions_read_length(&Vec::<ConditionalOffset>::new()), Some(0));
    let odd = vec![ConditionalOffset {
        offset: 0,
        conditions: vec![condition(2, 3, 9, 0)],
    }];
    assert_eq!(conditions_read_length(&odd), Some(4));
    let huge = vec![ConditionalOffset {
        offset: 0,
        conditions: vec![condition(u64::MAX, 0, 8, 0)],
    }];
    assert_eq!(conditions_read_length(&huge), None);
}
