//! Arithmetic facts about the shift and truncation operators used by the codecs.
use vstd::prelude::*;
use vstd::arithmetic::power2::{lemma2_to64, lemma_pow2_adds, lemma_pow2_pos, lemma_pow2_strictly_increases, lemma_pow2_unfold, pow2};
use vstd::bits::{lemma_low_bits_mask_unfold, lemma_low_bits_mask_values, lemma_u32_pow2_no_overflow, lemma_u32_shl_is_mul, lemma_u32_shr_is_div, lemma_u8_low_bits_mask_is_mod, lemma_u8_pow2_no_overflow, lemma_u8_shr_is_div, low_bits_mask};

verus! {

/// The value of `1i32 << n` for a shift amount below 32.
pub open spec fn shl_one(n: nat) -> int {
    if n < 31 {
        pow2(n) as int
    } else {
        -(pow2(31) as int)
    }
}

/// Division of integers that rounds towards zero, as Rust's `/` on signed integers does.
pub open spec fn tdiv(x: int, d: int) -> int {
    if x == 0 {
        0
    } else if x > 0 && d > 0 {
        x / d
    } else if x < 0 && d < 0 {
        (-x) / (-d)
    } else if x < 0 {
        -((-x) / d)
    } else {
        -(x / (-d))
    }
}

/// The remainder that goes with `tdiv`, as Rust's `%` on signed integers computes it.
pub open spec fn trem(x: int, d: int) -> int {
    if x == 0 {
        0
    } else if x > 0 && d > 0 {
        x % d
    } else if x < 0 && d < 0 {
        -((-x) % (-d))
    } else if x < 0 {
        -((-x) % d)
    } else {
        x % (-d)
    }
}

/// Computes `1i32 << n`.
pub fn one_shl(n: usize) -> (r: i32)
    requires
        n < 32,
    ensures
        r == shl_one(n as nat),
        r > 0 || r == i32::MIN,
{
    let k = n as u32;
    let r = 1i32 << k;
    proof {
        assert((1i32 << k) == ((1u32 << k) as i32)) by (bit_vector)
            requires
                k < 32,
        ;
        lemma_u32_pow2_no_overflow(k as nat);
        lemma_u32_shl_is_mul(1u32, k);
        lemma2_to64();
        if k == 31 {
            assert(pow2(31) == 0x80000000);
            assert((0x80000000u32 as i32) == -0x80000000i32) by (bit_vector);
        } else {
            lemma_pow2_strictly_increases(k as nat, 31);
            lemma_pow2_pos(k as nat);
        }
    }
    r
}

} // verus!

verus! {

/// `a / d` for a divisor produced by `one_shl`.
pub fn div_shifted(a: i32, d: i32) -> (q: i32)
    requires
        d > 0 || d == i32::MIN,
    ensures
        q == tdiv(a as int, d as int),
{
    let q = a / d;
    if d == i32::MIN {
        if a == i32::MIN {
            assert(q == 1);
        } else {
            assert(q == 0);
        }
    } else if a < 0 {
        assert(q == -((-a as int) / d as int));
    }
    q
}

/// `a % d` for a divisor produced by `one_shl`.
pub fn rem_shifted(a: i32, d: i32) -> (m: i32)
    requires
        d > 0 || d == i32::MIN,
    ensures
        m == trem(a as int, d as int),
{
    let m = a % d;
    if d == i32::MIN {
        if a == i32::MIN {
            assert(m == 0);
        } else {
            assert(m == a);
        }
    } else if a > 0 {
        assert(m == (a as int) % (d as int));
    } else if a == 0 {
        assert(m == 0);
    } else {
        assert(m == -((-a as int) % d as int));
    }
    m
}

/// Truncating an `i32` to a `u8` keeps its value modulo 256.
pub proof fn lemma_i32_as_u8(x: i32)
    ensures
        (x as u8) as int == x % 256,
{
    assert((x as u8) as int == x % 256) by (bit_vector);
}

} // verus!

verus! {

/// Keeping bits `t..=h` of a byte by shifting it left by `7 - h` and back right by `7 - h + t`.
pub proof fn lemma_u8_bits_window(b: u8, h: u8, t: u8)
    requires
        t <= h <= 7,
    ensures
        ((b << (7 - h) as u8) >> (7 - h + t) as u8) as int == (b as int % (pow2((h + 1) as nat) as int)) / pow2(t as nat) as int,
        ((b << (7 - h) as u8) >> (7 - h) as u8) as int == b as int % (pow2((h + 1) as nat) as int),
{
    let k: u8 = (7 - h) as u8;
    assert(((b << k) >> k) == b & (0xffu8 >> k)) by (bit_vector)
        requires
            k <= 7,
    ;
    assert(((b << k) >> ((k + t) as u8)) == ((b << k) >> k) >> t) by (bit_vector)
        requires
            k + t <= 7,
    ;
    let m: u8 = 0xffu8 >> k;
    lemma_u8_shr_is_div(0xffu8, k);
    lemma2_to64();
    lemma_pow2_adds(k as nat, (h + 1) as nat);
    assert(pow2(8) == 256);
    assert(pow2(k as nat) * pow2((h + 1) as nat) == 256);
    lemma_pow2_pos(k as nat);
    lemma_pow2_pos((h + 1) as nat);
    assert(255nat / pow2(k as nat) == pow2((h + 1) as nat) - 1) by (nonlinear_arith)
        requires
            pow2(k as nat) * pow2((h + 1) as nat) == 256,
            pow2(k as nat) > 0,
            pow2((h + 1) as nat) > 0,
    ;
    if h == 7 {
        assert(b & 0xffu8 == b) by (bit_vector);
        assert(m == 0xffu8);
        assert(b as int % 256 == b as int);
    } else {
        lemma_low_bits_mask_values();
        assert(low_bits_mask((h + 1) as nat) == pow2((h + 1) as nat) - 1);
        assert(m == low_bits_mask((h + 1) as nat) as u8);
        lemma_u8_low_bits_mask_is_mod(b, (h + 1) as nat);
        lemma_u8_pow2_no_overflow((h + 1) as nat);
    }
    let low: u8 = b & m;
    lemma_u8_shr_is_div(low, t);
}

/// Shifting a byte widened to `i32` right is division by a power of two.
pub proof fn lemma_byte_i32_shr(x: u8, t: u32)
    requires
        t < 32,
    ensures
        ((x as i32) >> t) as int == (x as int) / pow2(t as nat) as int,
{
    assert(((x as i32) >> t) == (((x as u32) >> t) as i32)) by (bit_vector)
        requires
            t < 32,
    ;
    lemma_u32_shr_is_div(x as u32, t);
    lemma_pow2_pos(t as nat);
}

/// Shifting a byte widened to `i32` left is multiplication by a power of two, as long as
/// the product stays below `2^31`.
pub proof fn lemma_byte_i32_shl(x: u8, s: u32)
    requires
        s < 32,
        (x as int) * pow2(s as nat) <= i32::MAX,
    ensures
        ((x as i32) << s) as int == (x as int) * pow2(s as nat),
{
    assert(((x as i32) << s) == (((x as u32) << s) as i32)) by (bit_vector)
        requires
            s < 32,
    ;
    lemma_u32_shl_is_mul(x as u32, s);
}

} // verus!
