//! The encoder of the unique identity of patterns with its bit numbers as bytes, and an
//! encoding unit that holds the fields of one edge.
use vstd::prelude::*;
use vstd::arithmetic::power2::{lemma_pow2_pos, pow2};
use vstd::bits::{lemma_u64_pow2_no_overflow, lemma_u64_shl_is_mul};

use crate::catalogue::pattern::Direction;

verus! {

/// ## Edge-Based Encoding Unit
/// Each encoding unit represents an edge in the pattern and contains:
/// 1. Edge Label
/// 2. Src Vertex Label
/// 3. Dst Vertex Label
/// 4. Edge Direction
/// 5. Src Vertex Index
/// 6. Dst Vertex Index
#[derive(Debug, Clone)]
pub struct EncodeUnit {
    pub edge_label: u64,
    pub start_v_label: u64,
    pub end_v_label: u64,
    pub edge_direction: Direction,
    pub start_v_index: u64,
    pub end_v_index: u64,
}

/// The number a direction is encoded as.
pub open spec fn direction_number(d: Direction) -> u64 {
    match d {
        Direction::Out => 0,
        Direction::Incoming => 1,
    }
}

impl EncodeUnit {
    /// ### Create a new EncodeUnit with Input Variables
    pub fn new(
        edge_label: u64,
        start_v_label: u64,
        end_v_label: u64,
        edge_direction: Direction,
        start_v_index: u64,
        end_v_index: u64,
    ) -> (unit: EncodeUnit)
        ensures
            unit == (EncodeUnit { edge_label, start_v_label, end_v_label, edge_direction, start_v_index, end_v_index }),
    {
        EncodeUnit { edge_label, start_v_label, end_v_label, edge_direction, start_v_index, end_v_index }
    }

    /// ### Setter of end_v_label
    pub fn set_end_v_label(&mut self, end_v_label: u64)
        ensures
            *final(self) == (EncodeUnit { end_v_label, ..*old(self) }),
    {
        self.end_v_label = end_v_label;
    }

    /// ### Setter of end_v_index
    pub fn set_end_v_index(&mut self, end_v_index: u64)
        ensures
            *final(self) == (EncodeUnit { end_v_index, ..*old(self) }),
    {
        self.end_v_index = end_v_index;
    }

    /// All the fields at a time, the direction as its number
    pub fn get_all_member_variable(&self) -> (fields: (u64, u64, u64, u64, u64, u64))
        ensures
            fields == (
                self.edge_label,
                self.start_v_label,
                self.end_v_label,
                direction_number(self.edge_direction),
                self.start_v_index,
                self.end_v_index,
            ),
    {
        let direction: u64 = match self.edge_direction {
            Direction::Out => 0,
            Direction::Incoming => 1,
        };
        (self.edge_label, self.start_v_label, self.end_v_label, direction, self.start_v_index, self.end_v_index)
    }
}

/// ## Unique Pattern Identity Encoder
/// Contains the bit number that each variable in the encoding unit occupies, how many bits
/// an ASCII character holds, and how many ASCII characters an encoding unit takes
#[derive(Debug, Clone)]
pub struct Encoder {
    pub edge_label_bit_num: u8,
    pub vertex_label_bit_num: u8,
    pub edge_direction_bit_num: u8,
    pub vertex_index_bit_num: u8,
    pub bit_per_ascii_char: u8,
    pub ascii_char_num_per_encode_unit: u8,
}

/// The bits of an encoding unit: one edge label, two vertex labels, one direction and two
/// vertex indices.
pub open spec fn unit_bit_num(edge_label_bit_num: u8, vertex_label_bit_num: u8, edge_direction_bit_num: u8, vertex_index_bit_num: u8) -> int {
    edge_label_bit_num + 2 * vertex_label_bit_num + edge_direction_bit_num + 2 * vertex_index_bit_num
}

/// The part of a natural number that falls into storage unit `idx`, before truncation to a
/// byte: the value occupies bits `tail..=head` of the code, and storage unit `idx` holds bits
/// `idx * w ..= (idx + 1) * w - 1`.
pub open spec fn natural_part(value: int, head: int, tail: int, w: int, idx: int) -> int {
    let char_tail = idx * w;
    let char_head = (idx + 1) * w - 1;
    if tail > char_head || head < char_tail {
        0
    } else if tail >= char_tail && head <= char_head {
        value * pow2((tail - char_tail) as nat)
    } else if tail < char_tail && head <= char_head {
        value / pow2((char_tail - tail) as nat) as int
    } else if tail >= char_tail && head > char_head {
        let shift = char_head + 1 - tail;
        (value % pow2(shift as nat) as int) * pow2((w - shift) as nat)
    } else {
        (value / pow2((char_tail - tail) as nat) as int) % pow2(w as nat) as int
    }
}

/// The inputs on which `Encoder::get_encode_numerical_value` neither overflows nor shifts by
/// 64 bits or more.
pub open spec fn numerical_value_defined(value: int, head: int, tail: int, w: int, idx: int) -> bool {
    let char_tail = idx * w;
    let char_head = (idx + 1) * w - 1;
    &&& w >= 1
    &&& (idx + 1) * w <= 255
    &&& if tail > char_head || head < char_tail {
        true
    } else if tail >= char_tail && head <= char_head {
        tail - char_tail < 64 && value * pow2((tail - char_tail) as nat) <= u64::MAX
    } else if tail < char_tail && head <= char_head {
        char_tail - tail < 64
    } else if tail >= char_tail && head > char_head {
        let shift = char_head + 1 - tail;
        &&& shift < 64
        &&& w - shift < 64
        &&& (value % pow2(shift as nat) as int) * pow2((w - shift) as nat) <= u64::MAX
    } else {
        char_tail - tail < 64 && w < 64
    }
}

/// Truncating a `u64` to a byte keeps its remainder modulo 256.
proof fn lemma_u64_as_u8(x: u64)
    ensures
        (x as u8) as int == x as int % 256,
{
    assert((x as u8) as u64 == x % 256) by (bit_vector);
}

/// Computes `1u64 << n`.
fn one_shl_u64(n: u8) -> (r: u64)
    requires
        n < 64,
    ensures
        r == pow2(n as nat),
        r > 0,
{
    proof {
        lemma_u64_pow2_no_overflow(n as nat);
        lemma_u64_shl_is_mul(1, n as u64);
        lemma_pow2_pos(n as nat);
    }
    1u64 << (n as u64)
}

impl Encoder {
    /// ### Initialize Encoder with User Definded Parameters
    pub fn initialize(
        edge_label_bit_num: u8,
        vertex_label_bit_num: u8,
        edge_direction_bit_num: u8,
        vertex_index_bit_num: u8,
    ) -> (encoder: Encoder)
        requires
            1 <= unit_bit_num(edge_label_bit_num, vertex_label_bit_num, edge_direction_bit_num, vertex_index_bit_num) <= 255,
        ensures
            encoder.edge_label_bit_num == edge_label_bit_num,
            encoder.vertex_label_bit_num == vertex_label_bit_num,
            encoder.edge_direction_bit_num == edge_direction_bit_num,
            encoder.vertex_index_bit_num == vertex_index_bit_num,
            encoder.bit_per_ascii_char == 7,
            encoder.ascii_char_num_per_encode_unit == (unit_bit_num(edge_label_bit_num, vertex_label_bit_num, edge_direction_bit_num, vertex_index_bit_num) - 1) / 7 + 1,
    {
        let sum_bit_num = edge_label_bit_num + vertex_label_bit_num * 2 + edge_direction_bit_num + vertex_index_bit_num * 2;
        let bit_per_ascii_char: u8 = 7;
        let ascii_char_num_per_encode_unit = (sum_bit_num - 1) / bit_per_ascii_char + 1;
        Encoder {
            edge_label_bit_num,
            vertex_label_bit_num,
            edge_direction_bit_num,
            vertex_index_bit_num,
            bit_per_ascii_char,
            ascii_char_num_per_encode_unit,
        }
    }

    /// ### Compute the u8 value for each storage unit (AsciiChar or u8)
    pub fn get_encode_numerical_value(
        &self,
        value: u64,
        value_head: u8,
        value_tail: u8,
        storage_unit_valid_bit_num: u8,
        storage_unit_index: u8,
    ) -> (output: u8)
        requires
            numerical_value_defined(
                value as int,
                value_head as int,
                value_tail as int,
                storage_unit_valid_bit_num as int,
                storage_unit_index as int,
            ),
        ensures
            output as int == natural_part(
                value as int,
                value_head as int,
                value_tail as int,
                storage_unit_valid_bit_num as int,
                storage_unit_index as int,
            ) % 256,
    {
        let w = storage_unit_valid_bit_num;
        let idx = storage_unit_index;
        proof {
            assert(idx * w <= (idx + 1) * w) by (nonlinear_arith)
                requires
                    w >= 1,
            ;
            assert((idx + 1) * w == idx * w + w) by (nonlinear_arith);
        }
        let output: u64;
        let char_tail = idx * w;
        let char_head = (idx + 1) * w - 1;
        if value_tail > char_head || value_head < char_tail {
            output = 0;
        } else if value_tail >= char_tail && value_head <= char_head {
            let offset_bit_num = value_tail - char_tail;
            let factor = one_shl_u64(offset_bit_num);
            output = value * factor;
        } else if value_tail < char_tail && value_head <= char_head {
            let shift_bit_num = char_tail - value_tail;
            output = value / one_shl_u64(shift_bit_num);
        } else if value_tail >= char_tail && value_head > char_head {
            let shift_bit_num = char_head + 1 - value_tail;
            let low = value % one_shl_u64(shift_bit_num);
            output = low * one_shl_u64(w - shift_bit_num);
        } else {
            let right_shift_bit_num = char_tail - value_tail;
            let high = value / one_shl_u64(right_shift_bit_num);
            output = high % one_shl_u64(w);
        }
        proof {
            lemma_u64_as_u8(output);
        }
        #[verifier::truncate] (output as u8)
    }
}

/// Getters
impl Encoder {
    /// ### Getter of all the member variables at a time
    pub fn get_all_member_variable(&self) -> (fields: (u8, u8, u8, u8))
        ensures
            fields == (self.edge_label_bit_num, self.vertex_label_bit_num, self.edge_direction_bit_num, self.vertex_index_bit_num),
    {
        (self.edge_label_bit_num, self.vertex_label_bit_num, self.edge_direction_bit_num, self.vertex_index_bit_num)
    }

    /// ### Compute How many storage units should be used to store an encode unit
    /// storage_unit_bit_num: how many valid bits a storage unit has; an ASCII char is a byte
    /// but holds 7 of them
    pub fn get_storage_unit_num_per_encode_unit(&self, storage_unit_bit_num: u8) -> (num: u8)
        requires
            storage_unit_bit_num >= 1,
            1 <= unit_bit_num(self.edge_label_bit_num, self.vertex_label_bit_num, self.edge_direction_bit_num, self.vertex_index_bit_num) <= 255,
        ensures
            num == (unit_bit_num(self.edge_label_bit_num, self.vertex_label_bit_num, self.edge_direction_bit_num, self.vertex_index_bit_num) - 1) / (storage_unit_bit_num as int) + 1,
    {
        let sum_bit_num = 1 * self.edge_label_bit_num + 2 * self.vertex_label_bit_num + 1 * self.edge_direction_bit_num + 2 * self.vertex_index_bit_num;
        (sum_bit_num - 1) / storage_unit_bit_num + 1
    }
}

} // verus!
