//! Bit-level codec for the unique identity of patterns.
use vstd::prelude::*;
use vstd::arithmetic::power2::{lemma_pow2_pos, lemma_pow2_strictly_increases, pow2};
use ascii::AsciiString;
use crate::catalogue::ascii_text::{ascii_bytes, ascii_new, ascii_push_byte, ascii_push_str, ascii_with_capacity};
use crate::ir::catalogue::extend_step::ExtendEdge;
use crate::ir::catalogue::collections::map_keys;
use crate::ir::catalogue::pattern::{edges_have_ends, Pattern, PatternEdge, PatternView};
use crate::ir::catalogue::collections::sorted_pairs;
use crate::ir::catalogue::extend_step::{ExtendStep, ExtendStepView};
use crate::ir::catalogue::{PatternId, PatternLabelId, PatternRankId};
use crate::ir::catalogue::PatternDirection;
use crate::bits::{div_shifted, lemma_byte_i32_shl, lemma_byte_i32_shr, lemma_i32_as_u8, lemma_u8_bits_window, one_shl, rem_shifted, shl_one, tdiv, trem};

verus! {

/// Whether `x` is in the range of `i32`.
pub open spec fn in_i32(x: int) -> bool {
    i32::MIN <= x <= i32::MAX
}

/// The part of a value that falls into storage unit `idx`, before truncation to a byte:
/// the value occupies bits `tail..=head` of the code, storage unit `idx` holds bits
/// `idx * w ..= (idx + 1) * w - 1`, and the part is the value's bits that fall there, at
/// their offset in the unit.
pub open spec fn encode_part(value: int, head: int, tail: int, w: int, idx: int) -> int {
    let char_tail = idx * w;
    let char_head = (idx + 1) * w - 1;
    if tail > char_head || head < char_tail {
        0
    } else if tail >= char_tail && head <= char_head {
        value * shl_one((tail - char_tail) as nat)
    } else if tail < char_tail && head <= char_head {
        tdiv(value, shl_one((char_tail - tail) as nat))
    } else if tail >= char_tail && head > char_head {
        let shift = char_head + 1 - tail;
        trem(value, shl_one(shift as nat)) * shl_one((w - shift) as nat)
    } else {
        trem(tdiv(value, shl_one((char_tail - tail) as nat)), shl_one(w as nat))
    }
}

/// The inputs on which computing `encode_part` with `i32` arithmetic neither overflows
/// nor shifts by 32 bits or more.
pub open spec fn encode_part_defined(value: int, head: int, tail: int, w: int, idx: int) -> bool {
    let char_tail = idx * w;
    let char_head = (idx + 1) * w - 1;
    &&& w >= 1
    &&& idx >= 0
    &&& (idx + 1) * w <= usize::MAX
    &&& if tail > char_head || head < char_tail {
        true
    } else if tail >= char_tail && head <= char_head {
        tail - char_tail < 32 && in_i32(value * shl_one((tail - char_tail) as nat))
    } else if tail < char_tail && head <= char_head {
        char_tail - tail < 32
    } else if tail >= char_tail && head > char_head {
        let shift = char_head + 1 - tail;
        &&& shift < 32
        &&& w - shift < 32
        &&& in_i32(trem(value, shl_one(shift as nat)) * shl_one((w - shift) as nat))
    } else {
        char_tail - tail < 32 && w < 32
    }
}


/// The bytes `code[ti - k]` for `1 <= k <= count`, each placed above the bits read so far:
/// the `k`-th one is shifted left by `w - to + (k - 1) * w`.
pub open spec fn decode_middle(code: Seq<u8>, ti: int, to: int, w: int, count: int) -> int
    decreases count,
{
    if count <= 0 {
        0
    } else {
        decode_middle(code, ti, to, w, count - 1) + code[ti - count] as int * pow2(
            (w - to + (count - 1) * w) as nat,
        ) as int
    }
}

/// The value that bits `tail..=head` of `code` hold, where the last byte of `code` is storage
/// unit 0 and each storage unit counts as `w` bits: the lowest unit contributes its bits from
/// `tail % w` up, the units strictly between contribute whole bytes, and the highest unit
/// contributes its bits up to `head % w`.
pub open spec fn decode_value(code: Seq<u8>, head: int, tail: int, w: int) -> int {
    let n = code.len() as int;
    let head_index = n - 1 - head / w;
    let head_offset = head % w;
    let tail_index = n - 1 - tail / w;
    let tail_offset = tail % w;
    if head_index == tail_index {
        (code[head_index] as int % pow2((head_offset + 1) as nat) as int) / pow2(
            tail_offset as nat,
        ) as int
    } else {
        let index_diff = tail_index - head_index;
        code[tail_index] as int / pow2(tail_offset as nat) as int + decode_middle(
            code,
            tail_index,
            tail_offset,
            w,
            index_diff - 1,
        ) + (code[head_index] as int % pow2((head_offset + 1) as nat) as int) * pow2(
            (w - tail_offset + (index_diff - 1) * w) as nat,
        ) as int
    }
}

/// The inputs on which `get_decode_value_by_head_tail` neither panics nor leaves the range
/// of `i32`: the head is at least the tail and lies within the code, the highest bit read
/// of a byte is one of its 8 bits, every shift is below 32 bits, and the value fits.
pub open spec fn decode_defined(code: Seq<u8>, head: int, tail: int, w: int) -> bool {
    let n = code.len() as int;
    let head_index = n - 1 - head / w;
    let tail_index = n - 1 - tail / w;
    &&& w >= 1
    &&& 0 <= tail <= head
    &&& head / w < n
    &&& head % w <= 7
    &&& head_index != tail_index ==> {
        &&& tail % w < 32
        &&& w - tail % w + (tail_index - head_index - 1) * w < 32
        &&& decode_value(code, head, tail, w) <= i32::MAX
    }
}

/// Every byte contributes a nonnegative amount, so reading fewer bytes never reads more.
proof fn lemma_decode_middle_monotone(code: Seq<u8>, ti: int, to: int, w: int, k1: int, k2: int)
    requires
        0 <= k1 <= k2,
    ensures
        0 <= decode_middle(code, ti, to, w, k1) <= decode_middle(code, ti, to, w, k2),
    decreases k2,
{
    if k1 < k2 {
        lemma_decode_middle_monotone(code, ti, to, w, k1, k2 - 1);
        lemma_pow2_pos((w - to + (k2 - 1) * w) as nat);
    } else if k1 > 0 {
        lemma_decode_middle_monotone(code, ti, to, w, k1 - 1, k1 - 1);
        lemma_pow2_pos((w - to + (k1 - 1) * w) as nat);
    }
}

/// ## Unique Pattern Identity Encoder
/// Holds the number of bits that each field of an encoding unit occupies.
#[derive(Debug, Clone)]
pub struct Encoder {
    edge_label_bit_num: usize,
    vertex_label_bit_num: usize,
    direction_bit_num: usize,
    vertex_index_bit_num: usize,
}

impl Encoder {
    pub closed spec fn spec_edge_label_bit_num(&self) -> usize {
        self.edge_label_bit_num
    }

    pub closed spec fn spec_vertex_label_bit_num(&self) -> usize {
        self.vertex_label_bit_num
    }

    pub closed spec fn spec_direction_bit_num(&self) -> usize {
        self.direction_bit_num
    }

    pub closed spec fn spec_vertex_index_bit_num(&self) -> usize {
        self.vertex_index_bit_num
    }

    /// Initializes an encoder with user defined bit numbers.
    pub fn initialize(
        edge_label_bit_num: usize,
        vertex_label_bit_num: usize,
        edge_direction_bit_num: usize,
        vertex_index_bit_num: usize,
    ) -> (encoder: Encoder)
        ensures
            encoder.spec_edge_label_bit_num() == edge_label_bit_num,
            encoder.spec_vertex_label_bit_num() == vertex_label_bit_num,
            encoder.spec_direction_bit_num() == edge_direction_bit_num,
            encoder.spec_vertex_index_bit_num() == vertex_index_bit_num,
    {
        Encoder {
            edge_label_bit_num,
            vertex_label_bit_num,
            direction_bit_num: edge_direction_bit_num,
            vertex_index_bit_num,
        }
    }

    /// The encoder with the fewest bits that a pattern needs, given the bits that its edge
    /// labels, its vertex labels and the ranks within a label need: directions take two bits,
    /// and the user's count of vertex index bits applies where it is larger than the ranks need.
    pub fn initialize_from_min_bit_nums(
        min_edge_label_bit_num: usize,
        min_vertex_label_bit_num: usize,
        min_vertex_rank_bit_num: usize,
        vertex_index_bit_num: usize,
    ) -> (encoder: Encoder)
        ensures
            encoder.spec_edge_label_bit_num() == min_edge_label_bit_num,
            encoder.spec_vertex_label_bit_num() == min_vertex_label_bit_num,
            encoder.spec_direction_bit_num() == 2,
            encoder.spec_vertex_index_bit_num() == if vertex_index_bit_num > min_vertex_rank_bit_num {
                vertex_index_bit_num
            } else {
                min_vertex_rank_bit_num
            },
    {
        let mut min_vertex_index_bit_num = min_vertex_rank_bit_num;
        if vertex_index_bit_num > min_vertex_index_bit_num {
            min_vertex_index_bit_num = vertex_index_bit_num;
        }
        let edge_direction_bit_num: usize = 2;
        Encoder::initialize(min_edge_label_bit_num, min_vertex_label_bit_num, edge_direction_bit_num, min_vertex_index_bit_num)
    }

    /// Computes the byte that storage unit `storage_unit_index` holds of `value`, where the
    /// value occupies bits `value_tail..=value_head` and a storage unit has
    /// `storage_unit_valid_bit_num` valid bits.
    pub fn get_encode_numerical_value(
        value: i32,
        value_head: usize,
        value_tail: usize,
        storage_unit_valid_bit_num: usize,
        storage_unit_index: usize,
    ) -> (output: u8)
        requires
            encode_part_defined(
                value as int,
                value_head as int,
                value_tail as int,
                storage_unit_valid_bit_num as int,
                storage_unit_index as int,
            ),
        ensures
            output as int == encode_part(
                value as int,
                value_head as int,
                value_tail as int,
                storage_unit_valid_bit_num as int,
                storage_unit_index as int,
            ) % 256,
    {
        let w = storage_unit_valid_bit_num;
        let idx = storage_unit_index;
        proof {
            assert(idx * w <= (idx + 1) * w) by (nonlinear_arith)
                requires
                    w >= 1,
            ;
            assert((idx + 1) * w == idx * w + w) by (nonlinear_arith);
            assert((idx + 1) <= (idx + 1) * w) by (nonlinear_arith)
                requires
                    w >= 1,
                    idx >= 0,
            ;
            assert((idx + 1) * w >= 1) by (nonlinear_arith)
                requires
                    w >= 1,
                    idx >= 0,
            ;
        }
        let output: i32;
        let char_tail = idx * w;
        let char_head = (idx + 1) * w - 1;
        if value_tail > char_head || value_head < char_tail {
            output = 0;
        } else if value_tail >= char_tail && value_head <= char_head {
            let offset_bit_num = value_tail - char_tail;
            let factor = one_shl(offset_bit_num);
            output = value * factor;
        } else if value_tail < char_tail && value_head <= char_head {
            let shift_bit_num = char_tail - value_tail;
            let divisor = one_shl(shift_bit_num);
            output = div_shifted(value, divisor);
        } else if value_tail >= char_tail && value_head > char_head {
            let shift_bit_num = char_head + 1 - value_tail;
            let low = rem_shifted(value, one_shl(shift_bit_num));
            let factor = one_shl(w - shift_bit_num);
            output = low * factor;
        } else {
            let right_shift_bit_num = char_tail - value_tail;
            let above = div_shifted(value, one_shl(right_shift_bit_num));
            output = rem_shifted(above, one_shl(w));
        }
        proof {
            lemma_i32_as_u8(output);
        }
        #[verifier::truncate] (output as u8)
    }
}

impl Encoder {
    /// Reads the value that bits `head..=tail` of `src_code` hold, where the last byte of the
    /// code is storage unit 0 and a storage unit has `storage_unit_bit_num` valid bits.
    pub fn get_decode_value_by_head_tail(
        src_code: &Vec<u8>,
        head: usize,
        tail: usize,
        storage_unit_bit_num: usize,
    ) -> (output: i32)
        requires
            decode_defined(src_code@, head as int, tail as int, storage_unit_bit_num as int),
        ensures
            output as int == decode_value(
                src_code@,
                head as int,
                tail as int,
                storage_unit_bit_num as int,
            ),
    {
        let w = storage_unit_bit_num;
        let mut output: i32;
        proof {
            assert(tail / w <= head / w) by (nonlinear_arith)
                requires
                    tail <= head,
                    w >= 1,
            ;
        }
        let head_index = src_code.len() - 1 - (head / w);
        let head_offset = head % w;
        let tail_index = src_code.len() - 1 - (tail / w);
        let tail_offset = tail % w;
        if head_index == tail_index {
            proof {
                assert(tail_offset <= head_offset) by (nonlinear_arith)
                    requires
                        tail / w == head / w,
                        tail <= head,
                        w >= 1,
                        head_offset == head % w,
                        tail_offset == tail % w,
                ;
                lemma_u8_bits_window(src_code@[head_index as int], head_offset as u8, tail_offset as u8);
            }
            let byte = src_code[head_index];
            let k = (8 - 1 - head_offset) as u8;
            let k2 = (8 - 1 - head_offset + tail_offset) as u8;
            output = ((byte << k) >> k2) as i32;
        } else {
            let index_diff = tail_index - head_index;
            let ghost code = src_code@;
            let ghost total = decode_value(code, head as int, tail as int, w as int);
            let ghost top_shift = w - tail_offset + (index_diff - 1) * w;
            proof {
                lemma_byte_i32_shr(code[tail_index as int], tail_offset as u32);
                lemma_decode_middle_monotone(code, tail_index as int, tail_offset as int, w as int, 0, index_diff - 1);
                lemma_pow2_pos(tail_offset as nat);
                lemma_pow2_pos(top_shift as nat);
            }
            output = (src_code[tail_index] as i32) >> (tail_offset as u32);
            let mut i: usize = 1;
            while i < index_diff
                invariant
                    code == src_code@,
                    1 <= i <= index_diff,
                    index_diff == tail_index - head_index,
                    head_index < tail_index < code.len(),
                    tail_offset < w,
                    tail_offset < 32,
                    top_shift == w - tail_offset + (index_diff - 1) * w,
                    top_shift < 32,
                    total == decode_value(code, head as int, tail as int, w as int),
                    total <= i32::MAX,
                    total == code[tail_index as int] as int / pow2(tail_offset as nat) as int
                        + decode_middle(code, tail_index as int, tail_offset as int, w as int, index_diff - 1)
                        + (code[head_index as int] as int % pow2((head_offset + 1) as nat) as int)
                            * pow2(top_shift as nat) as int,
                    output as int == code[tail_index as int] as int / pow2(tail_offset as nat) as int
                        + decode_middle(code, tail_index as int, tail_offset as int, w as int, i - 1),
                decreases index_diff - i,
            {
                let ghost shift = w - tail_offset + (i - 1) * w;
                proof {
                    lemma_pow2_pos(top_shift as nat);
                    lemma_pow2_pos(tail_offset as nat);
                    assert((i - 1) * w <= (index_diff - 1) * w) by (nonlinear_arith)
                        requires
                            i <= index_diff,
                            i >= 1,
                            w >= 1,
                    ;
                    lemma_decode_middle_monotone(code, tail_index as int, tail_offset as int, w as int, i as int, index_diff - 1);
                    lemma_pow2_pos(((head_offset + 1) as nat));
                    assert((code[head_index as int] as int % pow2((head_offset + 1) as nat) as int) >= 0);
                    assert(0 <= (code[head_index as int] as int % pow2((head_offset + 1) as nat) as int)
                            * pow2(top_shift as nat) as int) by (nonlinear_arith)
                        requires
                            (code[head_index as int] as int % pow2((head_offset + 1) as nat) as int) >= 0,
                            pow2(top_shift as nat) > 0,
                    ;
                    lemma_pow2_pos(shift as nat);
                    assert(decode_middle(code, tail_index as int, tail_offset as int, w as int, i as int)
                        == decode_middle(code, tail_index as int, tail_offset as int, w as int, i - 1)
                            + code[tail_index - i] as int * pow2(shift as nat) as int);
                    lemma_decode_middle_monotone(code, tail_index as int, tail_offset as int, w as int, 0, i - 1);
                    assert(code[tail_index as int] as int / pow2(tail_offset as nat) as int >= 0);
                    assert(code[tail_index - i] as int * pow2(shift as nat) as int <= i32::MAX);
                    lemma_byte_i32_shl(code[tail_index - i], shift as u32);
                }
                let shift_bits = (w - tail_offset + (i - 1) * w) as u32;
                output = output + ((src_code[tail_index - i] as i32) << shift_bits);
                i = i + 1;
            }
            proof {
                let top = code[head_index as int];
                lemma_u8_bits_window(top, head_offset as u8, 0);
                let masked = top as int % pow2((head_offset + 1) as nat) as int;
                assert(masked * pow2(top_shift as nat) <= i32::MAX);
                assert(((top << (7 - head_offset) as u8) >> (7 - head_offset) as u8) as int == masked);
                lemma_byte_i32_shl(((top << (7 - head_offset) as u8) >> (7 - head_offset) as u8), top_shift as u32);
            }
            let k = (8 - 1 - head_offset) as u8;
            let top_bits = (src_code[head_index] << k) >> k;
            let top_shift_bits = (w - tail_offset + (index_diff - 1) * w) as u32;
            output = output + ((top_bits as i32) << top_shift_bits);
        }
        output
    }
}

/// Getters
impl Encoder {
    pub fn get_edge_label_bit_num(&self) -> (n: usize)
        ensures
            n == self.spec_edge_label_bit_num(),
    {
        self.edge_label_bit_num
    }

    pub fn get_vertex_label_bit_num(&self) -> (n: usize)
        ensures
            n == self.spec_vertex_label_bit_num(),
    {
        self.vertex_label_bit_num
    }

    pub fn get_direction_bit_num(&self) -> (n: usize)
        ensures
            n == self.spec_direction_bit_num(),
    {
        self.direction_bit_num
    }

    pub fn get_vertex_index_bit_num(&self) -> (n: usize)
        ensures
            n == self.spec_vertex_index_bit_num(),
    {
        self.vertex_index_bit_num
    }
}

} // verus!

verus! {

/// What an encoding unit holds: values, and for each the highest and lowest bit it occupies.
pub struct EncodeUnitView {
    pub values: Seq<i32>,
    pub heads: Seq<usize>,
    pub tails: Seq<usize>,
}

/// A group of values, each placed at a range of bits of a code.
pub struct EncodeUnit {
    values: Vec<i32>,
    heads: Vec<usize>,
    tails: Vec<usize>,
}

impl View for EncodeUnit {
    type V = EncodeUnitView;

    closed spec fn view(&self) -> EncodeUnitView {
        EncodeUnitView { values: self.values@, heads: self.heads@, tails: self.tails@ }
    }
}

/// The unit that encodes edge `e` of pattern `p`: its label, the labels of its start and end
/// vertices and their ranks, from the highest bits down.
pub open spec fn pattern_edge_unit(p: PatternView, e: PatternEdge, el: int, vl: int, vi: int) -> EncodeUnitView {
    EncodeUnitView {
        values: seq![e.label, e.start_v_label, e.end_v_label, p.vertices[e.start_v_id].rank, p.vertices[e.end_v_id].rank],
        heads: seq![
            (el + 2 * vl + 2 * vi - 1) as usize,
            (2 * vl + 2 * vi - 1) as usize,
            (vl + 2 * vi - 1) as usize,
            (2 * vi - 1) as usize,
            (vi - 1) as usize,
        ],
        tails: seq![(2 * vl + 2 * vi) as usize, (vl + 2 * vi) as usize, (2 * vi) as usize, vi as usize, 0usize],
    }
}

/// The number a direction is encoded as.
pub open spec fn dir_code(d: PatternDirection) -> i32 {
    match d {
        PatternDirection::Out => 0,
        PatternDirection::In => 1,
    }
}

/// The unit that encodes extend edge `e`: the label and rank of its start vertex, its label
/// and its direction, from the highest bits down.
pub open spec fn extend_edge_unit(e: ExtendEdge, el: int, vl: int, dl: int, vi: int) -> EncodeUnitView {
    EncodeUnitView {
        values: seq![e.start_v_label, e.start_v_rankid, e.edge_label, dir_code(e.dir)],
        heads: seq![
            (vl + vi + el + dl - 1) as usize,
            (vi + el + dl - 1) as usize,
            (el + dl - 1) as usize,
            (dl - 1) as usize,
        ],
        tails: seq![(vi + el + dl) as usize, (el + dl) as usize, dl as usize, 0usize],
    }
}

impl EncodeUnit {
    pub fn from_pattern_edge(pattern: &Pattern, pattern_edge: &PatternEdge, encoder: &Encoder) -> (unit: Self)
        requires
            pattern@.vertices.contains_key(pattern_edge.start_v_id),
            pattern@.vertices.contains_key(pattern_edge.end_v_id),
            encoder.spec_vertex_index_bit_num() >= 1,
            encoder.spec_edge_label_bit_num() + 2 * encoder.spec_vertex_label_bit_num() + 2 * encoder.spec_vertex_index_bit_num() <= usize::MAX,
        ensures
            unit@ == pattern_edge_unit(
                pattern@,
                *pattern_edge,
                encoder.spec_edge_label_bit_num() as int,
                encoder.spec_vertex_label_bit_num() as int,
                encoder.spec_vertex_index_bit_num() as int,
            ),
    {
        let edge_label = pattern_edge.get_label();
        let start_v_label = pattern_edge.get_start_vertex_label();
        let end_v_label = pattern_edge.get_end_vertex_label();
        let start_v_index = pattern.get_vertex_rank(pattern_edge.get_start_vertex_id());
        let end_v_index = pattern.get_vertex_rank(pattern_edge.get_end_vertex_id());

        let edge_label_bit_num = encoder.get_edge_label_bit_num();
        let vertex_label_bit_num = encoder.get_vertex_label_bit_num();
        let vertex_index_bit_num = encoder.get_vertex_index_bit_num();

        let values = vec![edge_label, start_v_label, end_v_label, start_v_index, end_v_index];
        let heads = vec![
            edge_label_bit_num + 2 * vertex_label_bit_num + 2 * vertex_index_bit_num - 1,
            2 * vertex_label_bit_num + 2 * vertex_index_bit_num - 1,
            vertex_label_bit_num + 2 * vertex_index_bit_num - 1,
            2 * vertex_index_bit_num - 1,
            vertex_index_bit_num - 1,
        ];
        let tails = vec![
            2 * vertex_label_bit_num + 2 * vertex_index_bit_num,
            vertex_label_bit_num + 2 * vertex_index_bit_num,
            2 * vertex_index_bit_num,
            vertex_index_bit_num,
            0,
        ];
        let unit = EncodeUnit { values, heads, tails };
        assert(unit@.values =~= pattern_edge_unit(pattern@, *pattern_edge, edge_label_bit_num as int, vertex_label_bit_num as int, vertex_index_bit_num as int).values);
        assert(unit@.heads =~= pattern_edge_unit(pattern@, *pattern_edge, edge_label_bit_num as int, vertex_label_bit_num as int, vertex_index_bit_num as int).heads);
        assert(unit@.tails =~= pattern_edge_unit(pattern@, *pattern_edge, edge_label_bit_num as int, vertex_label_bit_num as int, vertex_index_bit_num as int).tails);
        unit
    }

    pub fn from_extend_edge(extend_edge: &ExtendEdge, encoder: &Encoder) -> (unit: Self)
        requires
            encoder.spec_direction_bit_num() >= 1,
            encoder.spec_vertex_label_bit_num() + encoder.spec_vertex_index_bit_num() + encoder.spec_edge_label_bit_num()
                + encoder.spec_direction_bit_num() <= usize::MAX,
        ensures
            unit@ == extend_edge_unit(
                *extend_edge,
                encoder.spec_edge_label_bit_num() as int,
                encoder.spec_vertex_label_bit_num() as int,
                encoder.spec_direction_bit_num() as int,
                encoder.spec_vertex_index_bit_num() as int,
            ),
    {
        let start_v_label = extend_edge.get_start_vertex_label();
        let start_v_index = extend_edge.get_start_vertex_rankid();
        let edge_label = extend_edge.get_edge_label();
        let dir: i32 = match extend_edge.get_direction() {
            PatternDirection::Out => 0,
            PatternDirection::In => 1,
        };

        let vertex_label_bit_num = encoder.get_vertex_label_bit_num();
        let vertex_index_bit_num = encoder.get_vertex_index_bit_num();
        let edge_label_bit_num = encoder.get_edge_label_bit_num();
        let direction_bit_num = encoder.get_direction_bit_num();

        let values = vec![start_v_label, start_v_index, edge_label, dir];
        let heads = vec![
            vertex_label_bit_num + vertex_index_bit_num + edge_label_bit_num + direction_bit_num - 1,
            vertex_index_bit_num + edge_label_bit_num + direction_bit_num - 1,
            edge_label_bit_num + direction_bit_num - 1,
            direction_bit_num - 1,
        ];
        let tails = vec![
            vertex_index_bit_num + edge_label_bit_num + direction_bit_num,
            edge_label_bit_num + direction_bit_num,
            direction_bit_num,
            0,
        ];
        let unit = EncodeUnit { values, heads, tails };
        let ghost spec_unit = extend_edge_unit(*extend_edge, edge_label_bit_num as int, vertex_label_bit_num as int, direction_bit_num as int, vertex_index_bit_num as int);
        assert(unit@.values =~= spec_unit.values);
        assert(unit@.heads =~= spec_unit.heads);
        assert(unit@.tails =~= spec_unit.tails);
        unit
    }
}

} // verus!

verus! {

/// The byte that storage unit `i` holds of the first `m` values of a unit: the sum of their parts.
pub open spec fn unit_sum(u: EncodeUnitView, w: int, i: int, m: int) -> int
    decreases m,
{
    if m <= 0 {
        0
    } else {
        unit_sum(u, w, i, m - 1) + encode_part(u.values[m - 1] as int, u.heads[m - 1] as int, u.tails[m - 1] as int, w, i) % 256
    }
}

/// The number of storage units of `w` bits that a unit occupies, up to its first head.
pub open spec fn unit_count(u: EncodeUnitView, w: int) -> int {
    u.heads[0] as int / w + 1
}

/// The bytes of a unit, highest storage unit first.
pub open spec fn unit_bytes(u: EncodeUnitView, w: int) -> Seq<u8> {
    Seq::new(unit_count(u, w) as nat, |k: int| unit_sum(u, w, unit_count(u, w) - 1 - k, u.values.len() as int) as u8)
}

/// The units on which `to_vec_u8` is defined: as many heads and tails as values, at least
/// one value, storage units of at least one bit, every part computable, and the parts of
/// each storage unit adding up to a byte.
pub open spec fn encodable(u: EncodeUnitView, w: int) -> bool {
    &&& u.values.len() >= 1
    &&& u.heads.len() == u.values.len()
    &&& u.tails.len() == u.values.len()
    &&& w >= 1
    &&& forall|j: int, i: int| 0 <= j < u.values.len() && 0 <= i < unit_count(u, w) ==> #[trigger] encode_part_defined(
        u.values[j] as int,
        u.heads[j] as int,
        u.tails[j] as int,
        w,
        i,
    )
    &&& forall|i: int| 0 <= i < unit_count(u, w) ==> #[trigger] unit_sum(u, w, i, u.values.len() as int) <= 255
}

/// Partial sums of the parts grow with the number of values.
proof fn lemma_unit_sum_monotone(u: EncodeUnitView, w: int, i: int, m1: int, m2: int)
    requires
        0 <= m1 <= m2,
    ensures
        0 <= unit_sum(u, w, i, m1) <= unit_sum(u, w, i, m2),
    decreases m2,
{
    if m1 < m2 {
        lemma_unit_sum_monotone(u, w, i, m1, m2 - 1);
    } else if m1 > 0 {
        lemma_unit_sum_monotone(u, w, i, m1 - 1, m1 - 1);
    }
}

impl EncodeUnit {
    /// The bytes of the unit, highest storage unit first, each storage unit holding
    /// `storage_unit_bit_num` bits.
    pub fn to_vec_u8(&self, storage_unit_bit_num: usize) -> (encode_vec: Vec<u8>)
        requires
            encodable(self@, storage_unit_bit_num as int),
        ensures
            encode_vec@ == unit_bytes(self@, storage_unit_bit_num as int),
    {
        let ghost u = self@;
        let ghost w = storage_unit_bit_num as int;
        proof {
            let top = u.heads[0] as int / w;
            assert(encode_part_defined(u.values[0] as int, u.heads[0] as int, u.tails[0] as int, w, top));
            assert(top + 1 <= (top + 1) * w) by (nonlinear_arith)
                requires
                    w >= 1,
                    top >= 0,
            ;
        }
        let storage_unit_num = self.heads[0] / storage_unit_bit_num + 1;
        let mut encode_vec: Vec<u8> = Vec::new();
        for k in 0..storage_unit_num
            invariant
                u == self@,
                w == storage_unit_bit_num,
                encodable(u, w),
                storage_unit_num == unit_count(u, w),
                encode_vec@.len() == k,
                forall|m: int| 0 <= m < k ==> encode_vec@[m] == unit_sum(u, w, unit_count(u, w) - 1 - m, u.values.len() as int) as u8,
        {
            let i = storage_unit_num - 1 - k;
            let mut unit_value: u8 = 0;
            for j in 0..self.values.len()
                invariant
                    u == self@,
                    w == storage_unit_bit_num,
                    encodable(u, w),
                    storage_unit_num == unit_count(u, w),
                    i < storage_unit_num,
                    unit_value == unit_sum(u, w, i as int, j as int),
            {
                proof {
                    assert(encode_part_defined(u.values[j as int] as int, u.heads[j as int] as int, u.tails[j as int] as int, w, i as int));
                    lemma_unit_sum_monotone(u, w, i as int, j + 1, u.values.len() as int);
                    assert(unit_sum(u, w, i as int, u.values.len() as int) <= 255);
                }
                let value = self.values[j];
                let head = self.heads[j];
                let tail = self.tails[j];
                unit_value = unit_value + Encoder::get_encode_numerical_value(value, head, tail, storage_unit_bit_num, i);
            }
            encode_vec.push(unit_value);
        }
        proof {
            assert(encode_vec@ =~= unit_bytes(u, w));
        }
        encode_vec
    }

    pub fn get_bits_num(&self) -> (bits: usize)
        requires
            self@.heads.len() >= 1,
            self@.heads[0] < usize::MAX,
        ensures
            bits == self@.heads[0] + 1,
    {
        self.heads[0] + 1
    }
}

} // verus!

verus! {

/// Encoding into codes of type `T`.
pub trait Encode<T> {
    /// The values that can be encoded with `encoder`.
    spec fn encodable_with(&self, encoder: &Encoder) -> bool;

    fn encode_to(&self, encoder: &Encoder) -> (code: T)
        requires
            self.encodable_with(encoder),
    ;
}

/// Decoding from codes of type `T`.
pub trait Decode<T>: Encode<T> + Sized {
    fn decode_from(src_code: T, encoder: &Encoder) -> Self;
}

/// The bytes a byte vector holds.
pub open spec fn bytes_of(v: Vec<u8>) -> Seq<u8> {
    v@
}

/// Every storage unit of the unit, counted in 7 bits, holds an ASCII byte.
pub open spec fn ascii_units(u: EncodeUnitView) -> bool {
    forall|i: int| 0 <= i < unit_count(u, 7) ==> #[trigger] unit_sum(u, 7, i, u.values.len() as int) <= 127
}

impl Encode<Vec<u8>> for EncodeUnit {
    open spec fn encodable_with(&self, encoder: &Encoder) -> bool {
        encodable(self@, 8)
    }

    fn encode_to(&self, _encoder: &Encoder) -> (code: Vec<u8>)
        ensures
            bytes_of(code) == unit_bytes(self@, 8),
    {
        self.to_vec_u8(8)
    }
}

impl Encode<AsciiString> for EncodeUnit {
    open spec fn encodable_with(&self, encoder: &Encoder) -> bool {
        encodable(self@, 7) && ascii_units(self@)
    }

    fn encode_to(&self, _encoder: &Encoder) -> (code: AsciiString)
        ensures
            ascii_bytes(code) == unit_bytes(self@, 7),
    {
        let encode_vec = self.to_vec_u8(7);
        assert forall|k: int| 0 <= k < encode_vec@.len() implies #[trigger] encode_vec@[k] < 128 by {
            let u = self@;
            let i = unit_count(u, 7) - 1 - k;
            assert(unit_sum(u, 7, i, u.values.len() as int) <= 127);
            lemma_unit_sum_monotone(u, 7, i, 0, u.values.len() as int);
        }
        bytes_to_ascii(&encode_vec)
    }
}

/// The ASCII string of bytes that are all below 128.
fn bytes_to_ascii(bytes: &Vec<u8>) -> (s: AsciiString)
    requires
        forall|k: int| 0 <= k < bytes@.len() ==> #[trigger] bytes@[k] < 128,
    ensures
        ascii_bytes(s) == bytes@,
{
    let mut encode_str = ascii_with_capacity(bytes.len());
    for k in 0..bytes.len()
        invariant
            forall|k: int| 0 <= k < bytes@.len() ==> #[trigger] bytes@[k] < 128,
            ascii_bytes(encode_str) == bytes@.take(k as int),
    {
        ascii_push_byte(&mut encode_str, bytes[k]);
        proof {
            assert(bytes@.take(k + 1) == bytes@.take(k as int).push(bytes@[k as int]));
        }
    }
    proof {
        assert(bytes@.take(bytes@.len() as int) == bytes@);
    }
    encode_str
}

} // verus!

verus! {

/// From position `i` on, whether `a` comes before `b` in the lexicographic order of byte
/// strings, where a proper prefix comes first.
pub open spec fn lex_lt_from(a: Seq<u8>, b: Seq<u8>, i: int) -> bool
    decreases a.len() - i,
{
    if i < 0 || i >= a.len() {
        0 <= i < b.len()
    } else if i >= b.len() {
        false
    } else if a[i] < b[i] {
        true
    } else if a[i] > b[i] {
        false
    } else {
        lex_lt_from(a, b, i + 1)
    }
}

/// The lexicographic order of byte strings, the order of `Vec<u8>`.
pub open spec fn lex_lt(a: Seq<u8>, b: Seq<u8>) -> bool {
    lex_lt_from(a, b, 0)
}

/// The lexicographic order is a strict total order from any position on.
proof fn lemma_lex_order_from(a: Seq<u8>, b: Seq<u8>, c: Seq<u8>, i: int)
    requires
        0 <= i,
    ensures
        !(lex_lt_from(a, b, i) && lex_lt_from(b, a, i)),
        lex_lt_from(a, b, i) && lex_lt_from(b, c, i) ==> lex_lt_from(a, c, i),
        !lex_lt_from(a, b, i) && !lex_lt_from(b, a, i) && i <= a.len() && i <= b.len() ==> a.subrange(i, a.len() as int) == b.subrange(i, b.len() as int),
    decreases a.len() - i,
{
    if i < a.len() && i < b.len() && i < c.len() && a[i] == b[i] && b[i] == c[i] {
        lemma_lex_order_from(a, b, c, i + 1);
    } else if i < a.len() && i < b.len() && a[i] == b[i] {
        lemma_lex_order_from(a, b, c, i + 1);
    }
    if i < a.len() && i < b.len() && a[i] == b[i] && !lex_lt_from(a, b, i) && !lex_lt_from(b, a, i) {
        if a.subrange(i + 1, a.len() as int) == b.subrange(i + 1, b.len() as int) {
            assert(a.subrange(i, a.len() as int) =~= seq![a[i]] + a.subrange(i + 1, a.len() as int));
            assert(b.subrange(i, b.len() as int) =~= seq![b[i]] + b.subrange(i + 1, b.len() as int));
        }
    }
    if i == a.len() && i == b.len() {
        assert(a.subrange(i, a.len() as int) =~= b.subrange(i, b.len() as int));
    }
}

/// The lexicographic order is a strict total order.
pub proof fn lemma_lex_order(a: Seq<u8>, b: Seq<u8>, c: Seq<u8>)
    ensures
        !lex_lt(a, a),
        lex_lt(a, b) && lex_lt(b, c) ==> lex_lt(a, c),
        a != b ==> lex_lt(a, b) || lex_lt(b, a),
{
    lemma_lex_order_from(a, b, c, 0);
    lemma_lex_order_from(a, a, c, 0);
    if a != b && !lex_lt(a, b) && !lex_lt(b, a) {
        assert(a.subrange(0, a.len() as int) =~= a);
        assert(b.subrange(0, b.len() as int) =~= b);
    }
}

/// Whether byte string `a` comes before byte string `b`.
fn bytes_lt(a: &Vec<u8>, b: &Vec<u8>) -> (lt: bool)
    ensures
        lt == lex_lt(a@, b@),
{
    let mut i: usize = 0;
    while i < a.len() && i < b.len() && a[i] == b[i]
        invariant
            i <= a@.len(),
            i <= b@.len(),
            lex_lt(a@, b@) == lex_lt_from(a@, b@, i as int),
        decreases a@.len() - i,
    {
        i = i + 1;
    }
    if i >= a.len() {
        i < b.len()
    } else if i >= b.len() {
        false
    } else {
        a[i] < b[i]
    }
}

/// The byte strings of `s`, each once, in increasing lexicographic order.
pub open spec fn sorted_codes(s: Set<Seq<u8>>) -> Seq<Seq<u8>> {
    choose|q: Seq<Seq<u8>>| (forall|a: int, b: int| 0 <= a < b < q.len() ==> lex_lt(q[a], q[b])) && q.to_set() == s
}

/// Two lexicographically increasing sequences of byte strings with the same members are equal.
proof fn lemma_sorted_codes_unique(s1: Seq<Seq<u8>>, s2: Seq<Seq<u8>>)
    requires
        forall|a: int, b: int| 0 <= a < b < s1.len() ==> lex_lt(s1[a], s1[b]),
        forall|a: int, b: int| 0 <= a < b < s2.len() ==> lex_lt(s2[a], s2[b]),
        s1.to_set() == s2.to_set(),
    ensures
        s1 == s2,
    decreases s1.len(),
{
    if s1.len() == 0 {
        if s2.len() > 0 {
            assert(s2.to_set().contains(s2[0]));
        }
    } else {
        assert(s1.to_set().contains(s1[0]));
        assert(s2.len() > 0);
        assert(s2.to_set().contains(s2[0]));
        let i1 = choose|i: int| 0 <= i < s1.len() && s1[i] == s2[0];
        let i2 = choose|i: int| 0 <= i < s2.len() && s2[i] == s1[0];
        lemma_lex_order(s1[0], s2[0], s1[0]);
        if i1 > 0 && i2 > 0 {
            assert(lex_lt(s1[0], s1[i1]));
            assert(lex_lt(s2[0], s2[i2]));
            lemma_lex_order(s1[0], s2[0], s1[0]);
        } else if i1 > 0 {
            assert(lex_lt(s1[0], s1[i1]));
        } else if i2 > 0 {
            assert(lex_lt(s2[0], s2[i2]));
        }
        assert(s1[0] == s2[0]);
        let t1 = s1.drop_first();
        let t2 = s2.drop_first();
        assert forall|x: Seq<u8>| t1.to_set().contains(x) <==> t2.to_set().contains(x) by {
            if t1.to_set().contains(x) {
                let i = choose|i: int| 0 <= i < t1.len() && t1[i] == x;
                assert(s1[i + 1] == x);
                assert(lex_lt(s1[0], x));
                lemma_lex_order(x, x, x);
                assert(s2.to_set().contains(x));
                let j = choose|j: int| 0 <= j < s2.len() && s2[j] == x;
                assert(j > 0);
                assert(t2[j - 1] == x);
            }
            if t2.to_set().contains(x) {
                let i = choose|i: int| 0 <= i < t2.len() && t2[i] == x;
                assert(s2[i + 1] == x);
                assert(lex_lt(s2[0], x));
                lemma_lex_order(x, x, x);
                assert(s1.to_set().contains(x));
                let j = choose|j: int| 0 <= j < s1.len() && s1[j] == x;
                assert(j > 0);
                assert(t1[j - 1] == x);
            }
        }
        assert(t1.to_set() =~= t2.to_set());
        lemma_sorted_codes_unique(t1, t2);
        assert(s1 =~= s2) by {
            assert(s1 == seq![s1[0]] + t1);
            assert(s2 == seq![s2[0]] + t2);
        }
    }
}

} // verus!

verus! {

/// The byte strings that a list of byte vectors holds.
pub open spec fn codes_view(s: Seq<Vec<u8>>) -> Seq<Seq<u8>> {
    s.map_values(|v: Vec<u8>| v@)
}

/// Whether a list of byte strings is strictly increasing in lexicographic order.
pub open spec fn codes_increasing(s: Seq<Seq<u8>>) -> bool {
    forall|a: int, b: int| 0 <= a < b < s.len() ==> lex_lt(s[a], s[b])
}

/// Adds a byte string to a strictly increasing list of byte strings, unless it is there.
fn insert_code(codes: &mut Vec<Vec<u8>>, code: Vec<u8>)
    requires
        codes_increasing(codes_view(old(codes)@)),
    ensures
        codes_increasing(codes_view(final(codes)@)),
        codes_view(final(codes)@).to_set() == codes_view(old(codes)@).to_set().insert(code@),
{
    let ghost before = codes_view(codes@);
    let mut j: usize = 0;
    while j < codes.len() && bytes_lt(&codes[j], &code)
        invariant
            j <= codes@.len(),
            before == codes_view(codes@),
            forall|k: int| 0 <= k < j ==> lex_lt(#[trigger] before[k], code@),
        decreases codes@.len() - j,
    {
        j = j + 1;
    }
    proof {
        lemma_lex_order(code@, code@, code@);
    }
    if j < codes.len() && !bytes_lt(&code, &codes[j]) {
        // the code is there already
        proof {
            lemma_lex_order(code@, before[j as int], code@);
            assert(before[j as int] == code@);
            assert(before.to_set().contains(code@));
            assert(before.to_set().insert(code@) =~= before.to_set());
        }
        return;
    }
    codes.insert(j, code);
    proof {
        let after = codes_view(codes@);
        assert(after =~= before.insert(j as int, code@));
        before.insert_ensures(j as int, code@);
        assert forall|a: int, b: int| 0 <= a < b < after.len() implies lex_lt(after[a], after[b]) by {
            if b < j {
            } else if b == j {
            } else if a < j {
                assert(after[b] == before[b - 1]);
                lemma_lex_order(after[a], code@, after[b]);
                if b - 1 > j {
                    lemma_lex_order(code@, before[j as int], before[b - 1]);
                }
            } else if a == j {
                assert(after[b] == before[b - 1]);
                if b - 1 > j {
                    lemma_lex_order(code@, before[j as int], before[b - 1]);
                }
            } else {
                assert(after[a] == before[a - 1]);
                assert(after[b] == before[b - 1]);
            }
        }
        assert forall|x: Seq<u8>| after.to_set().contains(x) <==> before.to_set().insert(code@).contains(x) by {
            if after.to_set().contains(x) {
                let k = choose|k: int| 0 <= k < after.len() && after[k] == x;
                if k < j {
                    assert(before.to_set().contains(before[k]));
                } else if k > j {
                    assert(before.to_set().contains(before[k - 1]));
                }
            }
            if before.to_set().contains(x) {
                let k = choose|k: int| 0 <= k < before.len() && before[k] == x;
                if k < j {
                    assert(after[k] == x);
                } else {
                    assert(after[k + 1] == x);
                }
            }
            if x == code@ {
                assert(after[j as int] == x);
            }
        }
        assert(after.to_set() =~= before.to_set().insert(code@));
    }
}

/// The concatenation of a list of byte vectors.
fn concat_codes(codes: &Vec<Vec<u8>>) -> (bytes: Vec<u8>)
    ensures
        bytes@ == codes_view(codes@).flatten(),
{
    let mut encode_vec: Vec<u8> = Vec::new();
    for i in 0..codes.len()
        invariant
            encode_vec@ == codes_view(codes@).take(i as int).flatten(),
    {
        let code = &codes[i];
        let ghost before = encode_vec@;
        for k in 0..code.len()
            invariant
                encode_vec@ == before + code@.take(k as int),
        {
            encode_vec.push(code[k]);
            proof {
                assert(code@.take(k + 1) == code@.take(k as int).push(code@[k as int]));
                assert(encode_vec@ =~= before + code@.take(k + 1));
            }
        }
        proof {
            assert(code@.take(code@.len() as int) == code@);
            let cv = codes_view(codes@);
            assert(cv.take(i + 1) == cv.take(i as int).push(code@));
            cv.take(i as int).lemma_flatten_push(code@);
        }
    }
    proof {
        assert(codes_view(codes@).take(codes@.len() as int) == codes_view(codes@));
    }
    encode_vec
}

} // verus!

verus! {

/// The unit that encodes edge `e` of pattern `p` with `encoder`.
pub open spec fn edge_unit(p: PatternView, e: PatternId, encoder: Encoder) -> EncodeUnitView {
    pattern_edge_unit(
        p,
        p.edges[e],
        encoder.spec_edge_label_bit_num() as int,
        encoder.spec_vertex_label_bit_num() as int,
        encoder.spec_vertex_index_bit_num() as int,
    )
}

/// The codes of the edges of `p`, with storage units of `w` bits.
pub open spec fn edge_codes(p: PatternView, encoder: Encoder, w: int) -> Set<Seq<u8>> {
    p.edges.dom().map(|e: PatternId| unit_bytes(edge_unit(p, e, encoder), w))
}

/// The code of a pattern: the distinct codes of its edges in increasing order, one after the other.
pub open spec fn pattern_code(p: PatternView, encoder: Encoder, w: int) -> Seq<u8> {
    sorted_codes(edge_codes(p, encoder, w)).flatten()
}

/// The patterns that can be encoded with storage units of `w` bits: every edge's vertices are
/// in the pattern, the vertex index takes a bit at least, the bits of a unit can be counted,
/// and every edge's unit can be encoded.
pub open spec fn pattern_encodable(p: PatternView, encoder: Encoder, w: int) -> bool {
    &&& edges_have_ends(p)
    &&& encoder.spec_vertex_index_bit_num() >= 1
    &&& encoder.spec_edge_label_bit_num() + 2 * encoder.spec_vertex_label_bit_num() + 2 * encoder.spec_vertex_index_bit_num() <= usize::MAX
    &&& forall|e: PatternId| #[trigger] p.edges.contains_key(e) ==> encodable(edge_unit(p, e, encoder), w)
}

/// The distinct codes of the edges of a pattern, in increasing order.
fn pattern_edge_codes(pattern: &Pattern, encoder: &Encoder, w: usize) -> (codes: Vec<Vec<u8>>)
    requires
        pattern_encodable(pattern@, *encoder, w as int),
        w == 7 ==> forall|e: PatternId| #[trigger] pattern@.edges.contains_key(e) ==> ascii_units(edge_unit(pattern@, e, *encoder)),
    ensures
        codes_increasing(codes_view(codes@)),
        codes_view(codes@).to_set() == edge_codes(pattern@, *encoder, w as int),
        codes_view(codes@) == sorted_codes(edge_codes(pattern@, *encoder, w as int)),
        w == 7 ==> forall|k: int, m: int| 0 <= k < codes@.len() && 0 <= m < codes@[k]@.len() ==> #[trigger] codes@[k]@[m] < 128,
{
    let ghost p = pattern@;
    let ids = map_keys(pattern.get_edges());
    let mut codes: Vec<Vec<u8>> = Vec::new();
    let ghost f = |e: PatternId| unit_bytes(edge_unit(p, e, *encoder), w as int);
    proof {
        assert(codes_view(codes@).to_set() =~= ids@.take(0).to_set().map(f));
    }
    for i in 0..ids.len()
        invariant
            p == pattern@,
            pattern_encodable(p, *encoder, w as int),
            w == 7 ==> forall|e: PatternId| #[trigger] p.edges.contains_key(e) ==> ascii_units(edge_unit(p, e, *encoder)),
            f == (|e: PatternId| unit_bytes(edge_unit(p, e, *encoder), w as int)),
            forall|e: PatternId| p.edges.contains_key(e) <==> #[trigger] ids@.contains(e),
            codes_increasing(codes_view(codes@)),
            codes_view(codes@).to_set() == ids@.take(i as int).to_set().map(f),
            w == 7 ==> forall|k: int, m: int| 0 <= k < codes@.len() && 0 <= m < codes@[k]@.len() ==> #[trigger] codes@[k]@[m] < 128,
    {
        let id = ids[i];
        assert(ids@.contains(id));
        let edge = match pattern.get_edge_from_id(id) {
            Some(edge) => edge,
            None => {
                assert(false);
                return codes;
            },
        };
        let unit = EncodeUnit::from_pattern_edge(pattern, edge, encoder);
        assert(unit@ == edge_unit(p, id, *encoder));
        let code = unit.to_vec_u8(w);
        proof {
            if w == 7 {
                assert forall|m: int| 0 <= m < code@.len() implies #[trigger] code@[m] < 128 by {
                    let u = unit@;
                    let j = unit_count(u, 7) - 1 - m;
                    assert(ascii_units(u));
                    assert(unit_sum(u, 7, j, u.values.len() as int) <= 127);
                    lemma_unit_sum_monotone(u, 7, j, 0, u.values.len() as int);
                }
            }
        }
        let ghost before = codes@;
        insert_code(&mut codes, code);
        proof {
            assert(ids@.take(i + 1) == ids@.take(i as int).push(id));
            ids@.take(i as int).lemma_push_to_set_commute(id);
            let s0 = ids@.take(i as int).to_set();
            assert forall|x: Seq<u8>| s0.insert(id).map(f).contains(x) <==> s0.map(f).insert(f(id)).contains(x) by {
                if s0.insert(id).map(f).contains(x) {
                    let a = choose|a: PatternId| s0.insert(id).contains(a) && f(a) == x;
                    if a != id {
                        assert(s0.contains(a));
                        assert(s0.map(f).contains(x));
                    }
                }
                if s0.map(f).contains(x) {
                    let a = choose|a: PatternId| s0.contains(a) && f(a) == x;
                    assert(s0.insert(id).contains(a));
                }
                if x == f(id) {
                    assert(s0.insert(id).contains(id));
                }
            }
            assert(ids@.take(i + 1).to_set().map(f) =~= ids@.take(i as int).to_set().map(f).insert(f(id)));
            if w == 7 {
                assert forall|k: int, m: int| 0 <= k < codes@.len() && 0 <= m < codes@[k]@.len() implies #[trigger] codes@[k]@[m] < 128 by {
                    assert(codes_view(codes@).to_set().contains(codes_view(codes@)[k]));
                    let x = codes_view(codes@)[k];
                    if x != code@ {
                        assert(codes_view(before).to_set().contains(x));
                        let k0 = choose|k0: int| 0 <= k0 < codes_view(before).len() && codes_view(before)[k0] == x;
                        assert(before[k0]@[m] < 128);
                    }
                }
            }
        }
    }
    proof {
        assert(ids@.take(ids@.len() as int) == ids@);
        assert(ids@.to_set() =~= p.edges.dom());
        let q = codes_view(codes@);
        assert(codes_increasing(q) && q.to_set() == edge_codes(p, *encoder, w as int));
        lemma_sorted_codes_unique(q, sorted_codes(edge_codes(p, *encoder, w as int)));
    }
    codes
}

} // verus!

verus! {

impl Encode<Vec<u8>> for Pattern {
    open spec fn encodable_with(&self, encoder: &Encoder) -> bool {
        pattern_encodable(self@, *encoder, 8)
    }

    /// The distinct codes of the edges, in increasing order, one after the other.
    fn encode_to(&self, encoder: &Encoder) -> (code: Vec<u8>)
        ensures
            bytes_of(code) == pattern_code(self@, *encoder, 8),
    {
        let codes = pattern_edge_codes(self, encoder, 8);
        concat_codes(&codes)
    }
}

impl Encode<AsciiString> for Pattern {
    open spec fn encodable_with(&self, encoder: &Encoder) -> bool {
        &&& pattern_encodable(self@, *encoder, 7)
        &&& forall|e: PatternId| #[trigger] self@.edges.contains_key(e) ==> ascii_units(edge_unit(self@, e, *encoder))
    }

    /// The distinct codes of the edges, in increasing order, one after the other.
    fn encode_to(&self, encoder: &Encoder) -> (code: AsciiString)
        ensures
            ascii_bytes(code) == pattern_code(self@, *encoder, 7),
    {
        let codes = pattern_edge_codes(self, encoder, 7);
        let mut encode_str = ascii_new();
        for i in 0..codes.len()
            invariant
                forall|k: int, m: int| 0 <= k < codes@.len() && 0 <= m < codes@[k]@.len() ==> #[trigger] codes@[k]@[m] < 128,
                ascii_bytes(encode_str) == codes_view(codes@).take(i as int).flatten(),
        {
            assert forall|m: int| 0 <= m < codes@[i as int]@.len() implies #[trigger] codes@[i as int]@[m] < 128 by {
            }
            let value = bytes_to_ascii(&codes[i]);
            ascii_push_str(&mut encode_str, &value);
            proof {
                let cv = codes_view(codes@);
                assert(cv.take(i + 1) == cv.take(i as int).push(codes@[i as int]@));
                cv.take(i as int).lemma_flatten_push(codes@[i as int]@);
            }
        }
        proof {
            assert(codes_view(codes@).take(codes@.len() as int) == codes_view(codes@));
        }
        encode_str
    }
}

/// The codes of extend edges, one after the other.
pub open spec fn extend_edges_code(edges: Seq<ExtendEdge>, encoder: Encoder, w: int) -> Seq<u8>
    decreases edges.len(),
{
    if edges.len() == 0 {
        Seq::empty()
    } else {
        extend_edges_code(edges.drop_last(), encoder, w) + unit_bytes(extend_unit(edges.last(), encoder), w)
    }
}

/// The unit that encodes extend edge `e` with `encoder`.
pub open spec fn extend_unit(e: ExtendEdge, encoder: Encoder) -> EncodeUnitView {
    extend_edge_unit(
        e,
        encoder.spec_edge_label_bit_num() as int,
        encoder.spec_vertex_label_bit_num() as int,
        encoder.spec_direction_bit_num() as int,
        encoder.spec_vertex_index_bit_num() as int,
    )
}

/// The codes of the extend edges of the groups `keys` of a step, group after group.
pub open spec fn groups_code(step: ExtendStepView, keys: Seq<(PatternLabelId, PatternRankId)>, encoder: Encoder, w: int) -> Seq<u8>
    decreases keys.len(),
{
    if keys.len() == 0 {
        Seq::empty()
    } else {
        groups_code(step, keys.drop_last(), encoder, w) + extend_edges_code(step.extend_edges[keys.last()], encoder, w)
    }
}

/// The code of an extend step: the byte of its target label, then the codes of its extend
/// edges group by group in increasing (label, rank) order.
pub open spec fn extend_step_code(step: ExtendStepView, encoder: Encoder, w: int) -> Seq<u8> {
    seq![step.target_v_label as u8] + groups_code(step, sorted_pairs(step.extend_edges.dom()), encoder, w)
}

/// The extend steps that can be encoded with storage units of `w` bits.
pub open spec fn step_encodable(step: ExtendStepView, encoder: Encoder, w: int) -> bool {
    &&& encoder.spec_direction_bit_num() >= 1
    &&& encoder.spec_vertex_label_bit_num() + encoder.spec_vertex_index_bit_num() + encoder.spec_edge_label_bit_num() + encoder.spec_direction_bit_num() <= usize::MAX
    &&& forall|k: (PatternLabelId, PatternRankId), j: int| #[trigger] step.extend_edges.contains_key(k) && 0 <= j < step.extend_edges[k].len()
        ==> encodable(extend_unit(#[trigger] step.extend_edges[k][j], encoder), w) && (w == 7 ==> ascii_units(extend_unit(step.extend_edges[k][j], encoder)))
}

/// The code of an extend step.
fn extend_step_bytes(step: &ExtendStep, encoder: &Encoder, w: usize) -> (code: Vec<u8>)
    requires
        step_encodable(step@, *encoder, w as int),
    ensures
        code@ == extend_step_code(step@, *encoder, w as int),
        w == 7 ==> forall|m: int| 1 <= m < code@.len() ==> #[trigger] code@[m] < 128,
{
    let mut encode_vec: Vec<u8> = Vec::new();
    let target = step.get_target_v_label();
    encode_vec.push(#[verifier::truncate] (target as u8));
    let groups = step.iter();
    let ghost keys = sorted_pairs(step@.extend_edges.dom());
    for g in 0..groups.len()
        invariant
            step_encodable(step@, *encoder, w as int),
            keys == sorted_pairs(step@.extend_edges.dom()),
            groups@.len() == keys.len(),
            forall|k: (PatternLabelId, PatternRankId)| step@.extend_edges.contains_key(k) <==> #[trigger] keys.contains(k),
            forall|i: int| 0 <= i < groups@.len() ==> {
                &&& #[trigger] groups@[i].0 == keys[i]
                &&& groups@[i].1@ == step@.extend_edges[groups@[i].0]
            },
            encode_vec@ == seq![target as u8] + groups_code(step@, keys.take(g as int), *encoder, w as int),
            w == 7 ==> forall|m: int| 1 <= m < encode_vec@.len() ==> #[trigger] encode_vec@[m] < 128,
    {
        let extend_edges = &groups[g].1;
        let ghost key = keys[g as int];
        assert(groups@[g as int].0 == key);
        assert(keys.contains(key));
        let ghost before_group = encode_vec@;
        for j in 0..extend_edges.len()
            invariant
                step_encodable(step@, *encoder, w as int),
                step@.extend_edges.contains_key(key),
                extend_edges@ == step@.extend_edges[key],
                encode_vec@ == before_group + extend_edges_code(extend_edges@.take(j as int), *encoder, w as int),
                w == 7 ==> forall|m: int| 1 <= m < encode_vec@.len() ==> #[trigger] encode_vec@[m] < 128,
                before_group.len() >= 1,
        {
            let extend_edge = &extend_edges[j];
            assert(encodable(extend_unit(step@.extend_edges[key][j as int], *encoder), w as int));
            let unit = EncodeUnit::from_extend_edge(extend_edge, encoder);
            let edge_code_vec = unit.to_vec_u8(w);
            proof {
                if w == 7 {
                    let u = unit@;
                    assert(ascii_units(extend_unit(step@.extend_edges[key][j as int], *encoder)));
                    assert forall|i: int| 0 <= i < edge_code_vec@.len() implies #[trigger] edge_code_vec@[i] < 128 by {
                        let k = unit_count(u, 7) - 1 - i;
                        assert(unit_sum(u, 7, k, u.values.len() as int) <= 127);
                        lemma_unit_sum_monotone(u, 7, k, 0, u.values.len() as int);
                    }
                }
            }
            let ghost before = encode_vec@;
            for m in 0..edge_code_vec.len()
                invariant
                    encode_vec@ == before + edge_code_vec@.take(m as int),
                    w == 7 ==> forall|i: int| 0 <= i < edge_code_vec@.len() ==> #[trigger] edge_code_vec@[i] < 128,
                    w == 7 ==> forall|i: int| 1 <= i < before.len() ==> #[trigger] before[i] < 128,
                    before.len() >= 1,
            {
                encode_vec.push(edge_code_vec[m]);
                proof {
                    assert(edge_code_vec@.take(m + 1) == edge_code_vec@.take(m as int).push(edge_code_vec@[m as int]));
                    assert(encode_vec@ =~= before + edge_code_vec@.take(m + 1));
                }
            }
            proof {
                assert(edge_code_vec@.take(edge_code_vec@.len() as int) == edge_code_vec@);
                assert(extend_edges@.take(j + 1).drop_last() == extend_edges@.take(j as int));
                assert(extend_edges@.take(j + 1).last() == *extend_edge);
                assert(encode_vec@ =~= before_group + extend_edges_code(extend_edges@.take(j + 1), *encoder, w as int));
            }
        }
        proof {
            assert(extend_edges@.take(extend_edges@.len() as int) == extend_edges@);
            assert(keys.take(g + 1).drop_last() == keys.take(g as int));
            assert(keys.take(g + 1).last() == key);
            assert(encode_vec@ =~= seq![target as u8] + groups_code(step@, keys.take(g + 1), *encoder, w as int));
        }
    }
    proof {
        assert(keys.take(keys.len() as int) == keys);
    }
    encode_vec
}

impl Encode<Vec<u8>> for ExtendStep {
    open spec fn encodable_with(&self, encoder: &Encoder) -> bool {
        step_encodable(self@, *encoder, 8)
    }

    fn encode_to(&self, encoder: &Encoder) -> (code: Vec<u8>)
        ensures
            bytes_of(code) == extend_step_code(self@, *encoder, 8),
    {
        extend_step_bytes(self, encoder, 8)
    }
}

impl Encode<AsciiString> for ExtendStep {
    open spec fn encodable_with(&self, encoder: &Encoder) -> bool {
        step_encodable(self@, *encoder, 7) && (self@.target_v_label as u8) < 128
    }

    fn encode_to(&self, encoder: &Encoder) -> (code: AsciiString)
        ensures
            ascii_bytes(code) == extend_step_code(self@, *encoder, 7),
    {
        let code = extend_step_bytes(self, encoder, 7);
        bytes_to_ascii(&code)
    }
}

} // verus!
