use ascii::{AsciiString, ToAsciiChar};
use gaia_ir::catalogue::codec::{Encode, EncodeUnit, Encoder};
use gaia_ir::ir::catalogue::extend_step::{ExtendEdge, ExtendStep};
use gaia_ir::ir::catalogue::pattern::{Pattern, PatternEdge};
use gaia_ir::ir::catalogue::PatternDirection;

fn build_pattern_testcase_1() -> Pattern {
    let pattern_edge1 = PatternEdge::new(0, 1, 0, 1, 1, 2);
    let pattern_edge2 = PatternEdge::new(1, 2, 0, 2, 1, 3);
    let pattern_vec = vec![pattern_edge1, pattern_edge2];
    Pattern::try_from(pattern_vec).unwrap()
}

fn generate_asciistring_from_vec(vec: &Vec<u8>) -> AsciiString {
    let mut output = AsciiString::new();
    for value in vec {
        output.push(value.to_ascii_char().unwrap());
    }
    output
}

fn ascii_to_bytes(s: &AsciiString) -> Vec<u8> {
    s.as_bytes().to_vec()
}

#[test]
fn codec_test_initialize_encoder_from_parameter_case1() {
    let encoder = Encoder::initialize(2, 3, 4, 5);
    assert_eq!(encoder.get_edge_label_bit_num(), 2);
    assert_eq!(encoder.get_vertex_label_bit_num(), 3);
    assert_eq!(encoder.get_direction_bit_num(), 4);
    assert_eq!(encoder.get_vertex_index_bit_num(), 5);
}

#[test]
fn codec_test_initialize_encoder_from_parameter_case2() {
    let encoder = Encoder::initialize(2, 2, 2, 2);
    assert_eq!(encoder.get_edge_label_bit_num(), 2);
    assert_eq!(encoder.get_vertex_label_bit_num(), 2);
    assert_eq!(encoder.get_direction_bit_num(), 2);
    assert_eq!(encoder.get_vertex_index_bit_num(), 2);
}

#[test]
fn encode_unit_to_ascii_string() {
    let pattern = build_pattern_testcase_1();
    let edge1 = pattern.get_edge_from_id(0).unwrap();
    let edge2 = pattern.get_edge_from_id(1).unwrap();
    let encoder = Encoder::initialize(2, 2, 2, 2);
    let encode_unit_1 = EncodeUnit::from_pattern_edge(&pattern, edge1, &encoder);
    let encode_string_1 = <EncodeUnit as Encode<AsciiString>>::encode_to(&encode_unit_1, &encoder);
    let expected_encode_string_1: AsciiString = generate_asciistring_from_vec(&vec![2, 96]);
    assert_eq!(encode_string_1.len(), 2);
    assert_eq!(encode_string_1, expected_encode_string_1);
    let encode_unit_2 = EncodeUnit::from_pattern_edge(&pattern, edge2, &encoder);
    let encode_string_2 = <EncodeUnit as Encode<AsciiString>>::encode_to(&encode_unit_2, &encoder);
    let expected_encode_string_2: AsciiString = generate_asciistring_from_vec(&vec![4, 112]);
    assert_eq!(encode_string_2.len(), 2);
    assert_eq!(encode_string_2, expected_encode_string_2);
}

#[test]
fn encode_unit_to_vec_u8() {
    let pattern = build_pattern_testcase_1();
    let edge1 = pattern.get_edge_from_id(0).unwrap();
    let edge2 = pattern.get_edge_from_id(1).unwrap();
    let encoder = Encoder::initialize(2, 2, 2, 2);
    let encode_unit_1 = EncodeUnit::from_pattern_edge(&pattern, edge1, &encoder);
    let encode_vec_1 = <EncodeUnit as Encode<Vec<u8>>>::encode_to(&encode_unit_1, &encoder);
    let expected_encode_vec_1: Vec<u8> = vec![1, 96];
    assert_eq!(encode_vec_1.len(), 2);
    assert_eq!(encode_vec_1, expected_encode_vec_1);
    let encode_unit_2 = EncodeUnit::from_pattern_edge(&pattern, edge2, &encoder);
    let encode_vec_2 = <EncodeUnit as Encode<Vec<u8>>>::encode_to(&encode_unit_2, &encoder);
    let expected_encode_vec_2: Vec<u8> = vec![2, 112];
    assert_eq!(encode_vec_2.len(), 2);
    assert_eq!(encode_vec_2, expected_encode_vec_2);
}

#[test]
fn encode_pattern_to_asciistring_case_1() {
    let pattern = build_pattern_testcase_1();
    let encoder = Encoder::initialize(2, 2, 2, 2);
    let encode_value = <Pattern as Encode<AsciiString>>::encode_to(&pattern, &encoder);
    let expected_encode_string_1: AsciiString = generate_asciistring_from_vec(&vec![2, 96]);
    let expected_encode_string_2: AsciiString = generate_asciistring_from_vec(&vec![4, 112]);
    let expected_encode_value = expected_encode_string_1 + &expected_encode_string_2;
    assert_eq!(encode_value, expected_encode_value);
}

#[test]
fn encode_pattern_to_vec_u8_case_1() {
    let pattern = build_pattern_testcase_1();
    let encoder = Encoder::initialize(2, 2, 2, 2);
    let encode_vec = <Pattern as Encode<Vec<u8>>>::encode_to(&pattern, &encoder);
    let mut expected_encode_vec_1: Vec<u8> = vec![1, 96];
    let expected_encode_vec_2: Vec<u8> = vec![2, 112];
    expected_encode_vec_1.extend(expected_encode_vec_2);
    assert_eq!(encode_vec, expected_encode_vec_1);
}

#[test]
fn test_get_decode_value_by_head_tail_vec8() {
    let src_code: Vec<u8> = vec![95, 115, 87];
    // inside one unit
    let picked_value = Encoder::get_decode_value_by_head_tail(&src_code, 0, 0, 8);
    assert_eq!(picked_value, 1);
    let picked_value = Encoder::get_decode_value_by_head_tail(&src_code, 15, 15, 8);
    assert_eq!(picked_value, 0);
    let picked_value = Encoder::get_decode_value_by_head_tail(&src_code, 1, 0, 8);
    assert_eq!(picked_value, 3);
    let picked_value = Encoder::get_decode_value_by_head_tail(&src_code, 2, 1, 8);
    assert_eq!(picked_value, 3);
    let picked_value = Encoder::get_decode_value_by_head_tail(&src_code, 7, 0, 8);
    assert_eq!(picked_value, 87);
    let picked_value = Encoder::get_decode_value_by_head_tail(&src_code, 15, 8, 8);
    assert_eq!(picked_value, 115);
    // neighboring units
    let picked_value = Encoder::get_decode_value_by_head_tail(&src_code, 8, 7, 8);
    assert_eq!(picked_value, 2);
    let picked_value = Encoder::get_decode_value_by_head_tail(&src_code, 9, 6, 8);
    assert_eq!(picked_value, 13);
    let picked_value = Encoder::get_decode_value_by_head_tail(&src_code, 8, 4, 8);
    assert_eq!(picked_value, 21);
    let picked_value = Encoder::get_decode_value_by_head_tail(&src_code, 13, 4, 8);
    assert_eq!(picked_value, 821);
    // crossing one unit
    let picked_value = Encoder::get_decode_value_by_head_tail(&src_code, 16, 7, 8);
    assert_eq!(picked_value, 742);
    let picked_value = Encoder::get_decode_value_by_head_tail(&src_code, 16, 6, 8);
    assert_eq!(picked_value, 1485);
    let picked_value = Encoder::get_decode_value_by_head_tail(&src_code, 18, 2, 8);
    assert_eq!(picked_value, 122069);
}

#[test]
fn test_get_decode_value_by_head_tail_asciistring() {
    let src_code: Vec<u8> = vec![95, 115, 87];
    // inside one unit
    let picked_value = Encoder::get_decode_value_by_head_tail(&src_code, 0, 0, 7);
    assert_eq!(picked_value, 1);
    let picked_value = Encoder::get_decode_value_by_head_tail(&src_code, 13, 13, 7);
    assert_eq!(picked_value, 1);
    let picked_value = Encoder::get_decode_value_by_head_tail(&src_code, 1, 0, 7);
    assert_eq!(picked_value, 3);
    let picked_value = Encoder::get_decode_value_by_head_tail(&src_code, 2, 1, 7);
    assert_eq!(picked_value, 3);
    let picked_value = Encoder::get_decode_value_by_head_tail(&src_code, 6, 0, 7);
    assert_eq!(picked_value, 87);
    let picked_value = Encoder::get_decode_value_by_head_tail(&src_code, 13, 7, 7);
    assert_eq!(picked_value, 115);
    // neighboring units
    let picked_value = Encoder::get_decode_value_by_head_tail(&src_code, 7, 6, 7);
    assert_eq!(picked_value, 3);
    let picked_value = Encoder::get_decode_value_by_head_tail(&src_code, 9, 6, 7);
    assert_eq!(picked_value, 7);
    let picked_value = Encoder::get_decode_value_by_head_tail(&src_code, 8, 4, 7);
    assert_eq!(picked_value, 29);
    let picked_value = Encoder::get_decode_value_by_head_tail(&src_code, 13, 4, 7);
    assert_eq!(picked_value, 925);
    // crossing one unit
    let picked_value = Encoder::get_decode_value_by_head_tail(&src_code, 14, 6, 7);
    assert_eq!(picked_value, 487);
    let picked_value = Encoder::get_decode_value_by_head_tail(&src_code, 16, 6, 7);
    assert_eq!(picked_value, 2023);
    let picked_value = Encoder::get_decode_value_by_head_tail(&src_code, 18, 2, 7);
    assert_eq!(picked_value, 130677);
}

#[test]
fn test_decode_from_encode_unit_to_vec_u8() {
    let pattern = build_pattern_testcase_1();
    let edge1 = pattern.get_edge_from_id(0).unwrap();
    let edge2 = pattern.get_edge_from_id(1).unwrap();
    let encoder = Encoder::initialize(2, 2, 2, 2);
    let encode_unit_1 = EncodeUnit::from_pattern_edge(&pattern, edge1, &encoder);
    let encode_vec_1 = <EncodeUnit as Encode<Vec<u8>>>::encode_to(&encode_unit_1, &encoder);
    let encode_unit_2 = EncodeUnit::from_pattern_edge(&pattern, edge2, &encoder);
    let encode_vec_2 = <EncodeUnit as Encode<Vec<u8>>>::encode_to(&encode_unit_2, &encoder);
    assert_eq!(Encoder::get_decode_value_by_head_tail(&encode_vec_1, 9, 8, 8), edge1.get_label());
    assert_eq!(Encoder::get_decode_value_by_head_tail(&encode_vec_1, 7, 6, 8), edge1.get_start_vertex_label());
    assert_eq!(Encoder::get_decode_value_by_head_tail(&encode_vec_1, 5, 4, 8), edge1.get_end_vertex_label());
    assert_eq!(
        Encoder::get_decode_value_by_head_tail(&encode_vec_1, 3, 2, 8),
        pattern.get_vertex_rank(edge1.get_start_vertex_id())
    );
    assert_eq!(
        Encoder::get_decode_value_by_head_tail(&encode_vec_1, 1, 0, 8),
        pattern.get_vertex_rank(edge1.get_end_vertex_id())
    );
    assert_eq!(Encoder::get_decode_value_by_head_tail(&encode_vec_2, 9, 8, 8), edge2.get_label());
    assert_eq!(Encoder::get_decode_value_by_head_tail(&encode_vec_2, 7, 6, 8), edge2.get_start_vertex_label());
    assert_eq!(Encoder::get_decode_value_by_head_tail(&encode_vec_2, 5, 4, 8), edge2.get_end_vertex_label());
    assert_eq!(
        Encoder::get_decode_value_by_head_tail(&encode_vec_2, 3, 2, 8),
        pattern.get_vertex_rank(edge2.get_start_vertex_id())
    );
    assert_eq!(
        Encoder::get_decode_value_by_head_tail(&encode_vec_2, 1, 0, 8),
        pattern.get_vertex_rank(edge2.get_end_vertex_id())
    );
}

#[test]
fn test_decode_from_encode_unit_to_asciistring() {
    let pattern = build_pattern_testcase_1();
    let edge1 = pattern.get_edge_from_id(0).unwrap();
    let edge2 = pattern.get_edge_from_id(1).unwrap();
    let encoder = Encoder::initialize(2, 2, 2, 2);
    let encode_unit_1 = EncodeUnit::from_pattern_edge(&pattern, edge1, &encoder);
    let encode_string_1 = <EncodeUnit as Encode<AsciiString>>::encode_to(&encode_unit_1, &encoder);
    let encode_unit_2 = EncodeUnit::from_pattern_edge(&pattern, edge2, &encoder);
    let encode_string_2 = <EncodeUnit as Encode<AsciiString>>::encode_to(&encode_unit_2, &encoder);
    let encode_vec_1: Vec<u8> = ascii_to_bytes(&encode_string_1);
    let encode_vec_2: Vec<u8> = ascii_to_bytes(&encode_string_2);
    assert_eq!(Encoder::get_decode_value_by_head_tail(&encode_vec_1, 9, 8, 7), edge1.get_label());
    assert_eq!(Encoder::get_decode_value_by_head_tail(&encode_vec_1, 7, 6, 7), edge1.get_start_vertex_label());
    assert_eq!(Encoder::get_decode_value_by_head_tail(&encode_vec_1, 5, 4, 7), edge1.get_end_vertex_label());
    assert_eq!(
        Encoder::get_decode_value_by_head_tail(&encode_vec_1, 3, 2, 7),
        pattern.get_vertex_rank(edge1.get_start_vertex_id())
    );
    assert_eq!(
        Encoder::get_decode_value_by_head_tail(&encode_vec_1, 1, 0, 7),
        pattern.get_vertex_rank(edge1.get_end_vertex_id())
    );
    assert_eq!(Encoder::get_decode_value_by_head_tail(&encode_vec_2, 9, 8, 7), edge2.get_label());
    assert_eq!(Encoder::get_decode_value_by_head_tail(&encode_vec_2, 7, 6, 7), edge2.get_start_vertex_label());
    assert_eq!(Encoder::get_decode_value_by_head_tail(&encode_vec_2, 5, 4, 7), edge2.get_end_vertex_label());
    assert_eq!(
        Encoder::get_decode_value_by_head_tail(&encode_vec_2, 3, 2, 7),
        pattern.get_vertex_rank(edge2.get_start_vertex_id())
    );
    assert_eq!(
        Encoder::get_decode_value_by_head_tail(&encode_vec_2, 1, 0, 7),
        pattern.get_vertex_rank(edge2.get_end_vertex_id())
    );
}

#[test]
fn encode_unit_fields_from_pattern_edge() {
    let pattern = build_pattern_testcase_1();
    let encoder = Encoder::initialize(2, 2, 2, 2);
    let unit = EncodeUnit::from_pattern_edge(&pattern, pattern.get_edge_from_id(1).unwrap(), &encoder);
    // the label occupies bits 8..=9 of a ten-bit unit
    assert_eq!(unit.get_bits_num(), 10);
}

#[test]
fn encode_numerical_value_in_each_case() {
    // the whole value inside the storage unit, shifted up by its offset
    assert_eq!(Encoder::get_encode_numerical_value(3, 5, 4, 8, 0), 48);
    // the value lies wholly outside the storage unit
    assert_eq!(Encoder::get_encode_numerical_value(3, 5, 4, 8, 1), 0);
    // the value reaches into the storage unit from below: its high bits
    assert_eq!(Encoder::get_encode_numerical_value(13, 9, 6, 8, 1), 3);
    // the value reaches out of the storage unit above: its low bits, shifted to the top
    assert_eq!(Encoder::get_encode_numerical_value(13, 9, 6, 8, 0), 64);
    // seven-bit storage units
    assert_eq!(Encoder::get_encode_numerical_value(1, 9, 8, 7, 1), 2);
}

#[test]
fn encode_extend_step_to_vec_u8() {
    let encoder = Encoder::initialize(2, 2, 2, 2);
    let edge = ExtendEdge::new(1, 0, 1, PatternDirection::Out);
    let unit = EncodeUnit::from_extend_edge(&edge, &encoder);
    // start label 1 at bits 6..=7, rank 0, edge label 1 at bits 2..=3, direction 0
    assert_eq!(<EncodeUnit as Encode<Vec<u8>>>::encode_to(&unit, &encoder), vec![68]);
    let step = ExtendStep::from((1, vec![edge, ExtendEdge::new(1, 0, 1, PatternDirection::In)]));
    let code = <ExtendStep as Encode<Vec<u8>>>::encode_to(&step, &encoder);
    assert_eq!(code, vec![1, 68, 69]);
    let ascii_code = <ExtendStep as Encode<AsciiString>>::encode_to(&step, &encoder);
    // in 7-bit units the same eight bits take two characters each
    assert_eq!(ascii_to_bytes(&ascii_code), vec![1, 0, 68, 0, 69]);
}

#[test]
fn pattern_code_does_not_depend_on_edge_ids() {
    let encoder = Encoder::initialize(2, 2, 2, 2);
    let first = build_pattern_testcase_1();
    let swapped = Pattern::try_from(vec![PatternEdge::new(5, 2, 0, 2, 1, 3), PatternEdge::new(9, 1, 0, 1, 1, 2)]).unwrap();
    assert_eq!(
        <Pattern as Encode<Vec<u8>>>::encode_to(&first, &encoder),
        <Pattern as Encode<Vec<u8>>>::encode_to(&swapped, &encoder)
    );
}

#[test]
fn encode_puts_the_bits_of_each_unit_of_a_wide_field() {
    // 0xABC over bits 0..=11 in units of 4 bits: unit 1 is wholly inside the field.
    assert_eq!(Encoder::get_encode_numerical_value(2748, 11, 0, 4, 0), 0xC);
    assert_eq!(Encoder::get_encode_numerical_value(2748, 11, 0, 4, 1), 0xB);
    assert_eq!(Encoder::get_encode_numerical_value(2748, 11, 0, 4, 2), 0xA);
    assert_eq!(Encoder::get_encode_numerical_value(2748, 11, 0, 4, 3), 0);
    // A field from bit 2 to bit 13 covers unit 1 and unit 2 wholly.
    assert_eq!(Encoder::get_encode_numerical_value(2748, 13, 2, 4, 0), 0);
    assert_eq!(Encoder::get_encode_numerical_value(2748, 13, 2, 4, 1), 0xF);
    assert_eq!(Encoder::get_encode_numerical_value(2748, 13, 2, 4, 2), 0xA);
    assert_eq!(Encoder::get_encode_numerical_value(2748, 13, 2, 4, 3), 0x2);
}

#[test]
fn wide_field_decodes_back() {
    let code: Vec<u8> = (0..4usize).rev().map(|i| Encoder::get_encode_numerical_value(2748, 13, 2, 4, i)).collect();
    assert_eq!(code, vec![0x2, 0xA, 0xF, 0x0]);
    assert_eq!(Encoder::get_decode_value_by_head_tail(&code, 13, 2, 4), 2748);
}

#[test]
fn encoder_from_min_bit_nums_takes_the_larger_index_width() {
    let encoder = Encoder::initialize_from_min_bit_nums(1, 2, 1, 0);
    assert_eq!(encoder.get_edge_label_bit_num(), 1);
    assert_eq!(encoder.get_vertex_label_bit_num(), 2);
    assert_eq!(encoder.get_direction_bit_num(), 2);
    assert_eq!(encoder.get_vertex_index_bit_num(), 1);
    let encoder = Encoder::initialize_from_min_bit_nums(3, 2, 1, 2);
    assert_eq!(encoder.get_edge_label_bit_num(), 3);
    assert_eq!(encoder.get_vertex_index_bit_num(), 2);
}
