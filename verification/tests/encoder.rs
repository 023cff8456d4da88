use gaia_ir::catalogue::encoder::{EncodeUnit, Encoder};
use gaia_ir::catalogue::pattern::Direction;

#[test]
fn encoder_test_initialize_encoder_from_parameter_case1() {
    let encoder = Encoder::initialize(2, 3, 4, 5);
    assert_eq!(encoder.edge_label_bit_num, 2);
    assert_eq!(encoder.vertex_label_bit_num, 3);
    assert_eq!(encoder.edge_direction_bit_num, 4);
    assert_eq!(encoder.vertex_index_bit_num, 5);
    assert_eq!(encoder.bit_per_ascii_char, 7);
    assert_eq!(encoder.ascii_char_num_per_encode_unit, 4);
}

#[test]
fn encoder_test_initialize_encoder_from_parameter_case2() {
    let encoder = Encoder::initialize(2, 2, 2, 2);
    assert_eq!(encoder.edge_label_bit_num, 2);
    assert_eq!(encoder.vertex_label_bit_num, 2);
    assert_eq!(encoder.edge_direction_bit_num, 2);
    assert_eq!(encoder.vertex_index_bit_num, 2);
    assert_eq!(encoder.bit_per_ascii_char, 7);
    assert_eq!(encoder.ascii_char_num_per_encode_unit, 2);
}

#[test]
fn encoder_unit_new_and_setters() {
    let mut unit = EncodeUnit::new(1, 2, 3, Direction::Incoming, 4, 5);
    assert_eq!(unit.get_all_member_variable(), (1, 2, 3, 1, 4, 5));
    unit.set_end_v_label(7);
    unit.set_end_v_index(9);
    assert_eq!(unit.get_all_member_variable(), (1, 2, 7, 1, 4, 9));
    let out_unit = EncodeUnit::new(0, 0, 0, Direction::Out, 0, 0);
    assert_eq!(out_unit.get_all_member_variable().3, 0);
}

#[test]
fn encoder_member_variables_and_storage_units() {
    let encoder = Encoder::initialize(2, 3, 4, 5);
    assert_eq!(encoder.get_all_member_variable(), (2, 3, 4, 5));
    // 2 + 2 * 3 + 4 + 2 * 5 = 22 bits
    assert_eq!(encoder.get_storage_unit_num_per_encode_unit(8), 3);
    assert_eq!(encoder.get_storage_unit_num_per_encode_unit(7), 4);
    assert_eq!(encoder.get_storage_unit_num_per_encode_unit(22), 1);
}

#[test]
fn encoder_numerical_value_in_each_case() {
    let encoder = Encoder::initialize(2, 2, 2, 2);
    assert_eq!(encoder.get_encode_numerical_value(3, 5, 4, 8, 0), 48);
    assert_eq!(encoder.get_encode_numerical_value(3, 5, 4, 8, 1), 0);
    assert_eq!(encoder.get_encode_numerical_value(13, 9, 6, 8, 1), 3);
    assert_eq!(encoder.get_encode_numerical_value(13, 9, 6, 8, 0), 64);
    // a value that spans a whole storage unit: the value's bits that fall in the unit
    assert_eq!(encoder.get_encode_numerical_value(0b1011_0110_1101, 11, 0, 4, 1), 0b0110);
    assert_eq!(encoder.get_encode_numerical_value(0xABC, 11, 0, 4, 1), 0xB);
}
