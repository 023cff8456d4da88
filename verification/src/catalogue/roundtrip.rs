//! What a code gives back: reading the bits of a field from the bytes of a unit yields the value
//! that was placed there.
use vstd::prelude::*;
use vstd::arithmetic::power2::{lemma_pow2_adds, lemma_pow2_pos, lemma_pow2_strictly_increases, pow2};
use crate::bits::{shl_one, tdiv, trem};
use crate::catalogue::encoder::natural_part;
use crate::catalogue::codec::{
    decode_defined, decode_middle, decode_value, dir_code, edge_unit, encodable, encode_part, encode_part_defined, extend_unit, Encoder, extend_edge_unit, pattern_edge_unit, unit_bytes,
    unit_count, unit_sum, EncodeUnitView,
};
use crate::ir::catalogue::extend_step::ExtendEdge;
use crate::ir::catalogue::{PatternDirection, PatternId};
use crate::ir::catalogue::pattern::{PatternEdge, PatternView};
use vstd::arithmetic::div_mod::{
    lemma_div_denominator, lemma_div_multiples_vanish_fancy, lemma_fundamental_div_mod,
    lemma_fundamental_div_mod_converse_div, lemma_mod_breakdown, lemma_mod_multiples_vanish,
    lemma_div_is_ordered, lemma_mod_mod, lemma_small_mod, lemma_truncate_middle,
};

verus! {

/// `2` to the power `n`, as an integer.
pub open spec fn p2(n: nat) -> int {
    pow2(n) as int
}

proof fn lemma_p2_split(a: nat, b: nat)
    ensures
        p2(a + b) == p2(a) * p2(b),
        p2(a) > 0,
        p2(b) > 0,
{
    lemma_pow2_adds(a, b);
    lemma_pow2_pos(a);
    lemma_pow2_pos(b);
}

proof fn lemma_p2_le(a: nat, b: nat)
    requires
        a <= b,
    ensures
        p2(a) <= p2(b),
{
    if a < b {
        lemma_pow2_strictly_increases(a, b);
    }
}

/// Adding a number that stays below bit `a` to a multiple of `2^a` adds their slices of `w`
/// bits from bit `c` up, with no carry between them.
proof fn lemma_slice_add(k: int, a: nat, x: int, c: nat, w: nat)
    requires
        0 <= k,
        0 <= x < p2(a),
    ensures
        ((k * p2(a) + x) / p2(c)) % p2(w) == ((k * p2(a)) / p2(c)) % p2(w) + (x / p2(c)) % p2(w),
{
    lemma_pow2_pos(a);
    lemma_pow2_pos(c);
    lemma_pow2_pos(w);
    let pa = p2(a);
    let pc = p2(c);
    let pw = p2(w);
    assert(k * pa >= 0) by (nonlinear_arith)
        requires
            k >= 0,
            pa > 0,
    ;
    if c >= a {
        let e = (c - a) as nat;
        lemma_p2_split(a, e);
        let pe = p2(e);
        assert(pc == pa * pe);
        lemma_div_denominator(k * pa + x, pa, pe);
        lemma_div_denominator(k * pa, pa, pe);
        lemma_div_multiples_vanish_fancy(k, x, pa);
        lemma_div_multiples_vanish_fancy(k, 0, pa);
        assert(pa * k == k * pa) by (nonlinear_arith);
        assert(pa * k + 0 == k * pa);
        lemma_p2_le(a, c);
        lemma_small_mod(x as nat, pc as nat);
        lemma_fundamental_div_mod_converse_div(x, pc, 0, x);
        assert(x / pc == 0);
        assert(0int % pw == 0);
    } else {
        let d = (a - c) as nat;
        lemma_p2_split(c, d);
        let pd = p2(d);
        assert(pa == pc * pd);
        let y = x / pc;
        let r = x % pc;
        lemma_fundamental_div_mod(x, pc);
        assert(x == pc * y + r);
        assert(0 <= r < pc);
        assert(0 <= y < pd) by (nonlinear_arith)
            requires
                x == pc * y + r,
                0 <= r < pc,
                0 <= x < pc * pd,
        ;
        assert(k * pa + x == (k * pd + y) * pc + r) by (nonlinear_arith)
            requires
                pa == pc * pd,
                x == pc * y + r,
        ;
        lemma_fundamental_div_mod_converse_div(k * pa + x, pc, k * pd + y, r);
        assert(k * pa == (k * pd) * pc + 0) by (nonlinear_arith)
            requires
                pa == pc * pd,
        ;
        lemma_fundamental_div_mod_converse_div(k * pa, pc, k * pd, 0);
        let kd = k * pd;
        assert(kd >= 0) by (nonlinear_arith)
            requires
                kd == k * pd,
                k >= 0,
                pd > 0,
        ;
        if d >= w {
            let f = (d - w) as nat;
            lemma_p2_split(w, f);
            assert(kd == pw * (k * p2(f))) by (nonlinear_arith)
                requires
                    pd == pw * p2(f),
                    kd == k * pd,
            ;
            lemma_mod_multiples_vanish(k * p2(f), y, pw);
            lemma_mod_multiples_vanish(k * p2(f), 0, pw);
            assert(0int % pw == 0);
        } else {
            let f = (w - d) as nat;
            lemma_p2_split(d, f);
            assert(pw == pd * p2(f));
            lemma_p2_le(d, w);
            lemma_small_mod(y as nat, pw as nat);
            lemma_mod_breakdown(kd + y, pd, p2(f));
            lemma_mod_breakdown(kd, pd, p2(f));
            assert(kd == pd * k) by (nonlinear_arith)
                requires
                    kd == k * pd,
            ;
            lemma_div_multiples_vanish_fancy(k, y, pd);
            lemma_div_multiples_vanish_fancy(k, 0, pd);
            lemma_mod_multiples_vanish(k, y, pd);
            lemma_mod_multiples_vanish(k, 0, pd);
            lemma_small_mod(y as nat, pd as nat);
            assert(0int % pd == 0);
        }
    }
}

/// A value of `h - t + 1` bits placed at bit `t` of a code: the part that `natural_part`
/// puts into storage unit `i` is the slice of `w` bits of `v * 2^t` that starts at bit
/// `i * w`.
pub proof fn lemma_natural_part_is_slice(v: int, h: int, t: int, w: int, i: int)
    requires
        1 <= w,
        0 <= t <= h,
        0 <= i,
        0 <= v < p2((h - t + 1) as nat),
    ensures
        natural_part(v, h, t, w, i) == ((v * p2(t as nat)) / p2((i * w) as nat)) % p2(w as nat),
        0 <= natural_part(v, h, t, w, i) < p2(w as nat),
{
    let ct = i * w;
    let ch = (i + 1) * w - 1;
    assert(ch == ct + w - 1) by (nonlinear_arith)
        requires
            ct == i * w,
            ch == (i + 1) * w - 1,
    ;
    assert(ct >= 0) by (nonlinear_arith)
        requires
            ct == i * w,
            i >= 0,
            w >= 1,
    ;
    let qt = t / w;
    let qh = h / w;
    lemma_fundamental_div_mod(t, w);
    lemma_fundamental_div_mod(h, w);
    let rt = t % w;
    let rh = h % w;
    let tn = t as nat;
    let cn = ct as nat;
    let wn = w as nat;
    let ln = (h - t + 1) as nat;
    lemma_pow2_pos(tn);
    lemma_pow2_pos(cn);
    lemma_pow2_pos(wn);
    lemma_pow2_pos(ln);
    let x = v * p2(tn);
    assert(x >= 0) by (nonlinear_arith)
        requires
            x == v * p2(tn),
            v >= 0,
            p2(tn) > 0,
    ;
    lemma_p2_split(ln, tn);
    assert(x < p2((h + 1) as nat)) by (nonlinear_arith)
        requires
            x == v * p2(tn),
            v < p2(ln),
            p2(tn) > 0,
            p2(ln) * p2(tn) == p2((h + 1) as nat),
    ;
    if t > ch || h < ct {
        if h < ct {
            lemma_p2_le((h + 1) as nat, cn);
            lemma_fundamental_div_mod_converse_div(x, p2(cn), 0, x);
            assert(0int % p2(wn) == 0);
        } else {
            let e = (t - ct - w) as nat;
            lemma_p2_split(e, wn);
            lemma_p2_split((e + wn) as nat, cn);
            assert(t == e + wn + cn);
            let m = v * p2(e);
            assert(x == (m * p2(wn)) * p2(cn) + 0) by (nonlinear_arith)
                requires
                    x == v * p2(tn),
                    m == v * p2(e),
                    p2(tn) == p2((e + wn) as nat) * p2(cn),
                    p2((e + wn) as nat) == p2(e) * p2(wn),
            ;
            lemma_fundamental_div_mod_converse_div(x, p2(cn), m * p2(wn), 0);
            assert(m * p2(wn) == p2(wn) * m + 0) by (nonlinear_arith);
            lemma_mod_multiples_vanish(m, 0, p2(wn));
            assert(0int % p2(wn) == 0);
        }
    } else if t >= ct && h <= ch {
        let d = (t - ct) as nat;
        lemma_p2_split(d, cn);
        assert(t == d + cn);
        let y = v * p2(d);
        assert(x == y * p2(cn) + 0) by (nonlinear_arith)
            requires
                x == v * p2(tn),
                y == v * p2(d),
                p2(tn) == p2(d) * p2(cn),
        ;
        lemma_fundamental_div_mod_converse_div(x, p2(cn), y, 0);
        lemma_p2_split(ln, d);
        assert(ln + d == (h - ct + 1));
        lemma_p2_le((h - ct + 1) as nat, wn);
        assert(0 <= y < p2(wn)) by (nonlinear_arith)
            requires
                y == v * p2(d),
                0 <= v < p2(ln),
                p2(d) > 0,
                p2(ln) * p2(d) == p2((h - ct + 1) as nat),
                p2((h - ct + 1) as nat) <= p2(wn),
        ;
        lemma_small_mod(y as nat, p2(wn) as nat);
    } else if t < ct && h <= ch {
        let d = (ct - t) as nat;
        lemma_p2_split(tn, d);
        assert(cn == tn + d);
        lemma_div_denominator(x, p2(tn), p2(d));
        lemma_div_multiples_vanish_fancy(v, 0, p2(tn));
        assert(p2(tn) * v + 0 == x) by (nonlinear_arith)
            requires
                x == v * p2(tn),
        ;
        assert(x / p2(cn) == v / p2(d));
        let y = v / p2(d);
        lemma_fundamental_div_mod(v, p2(d));
        let hn = (h - ct + 1) as nat;
        lemma_p2_split(d, hn);
        assert(ln == d + hn);
        assert(0 <= y < p2(hn)) by (nonlinear_arith)
            requires
                v == p2(d) * y + v % p2(d),
                0 <= v % p2(d) < p2(d),
                0 <= v < p2(ln),
                p2(ln) == p2(d) * p2(hn),
                p2(d) > 0,
        ;
        lemma_p2_le(hn, wn);
        lemma_small_mod(y as nat, p2(wn) as nat);
    } else if t >= ct && h > ch {
        let sh = ch + 1 - t;
        assert(1 <= sh <= w);
        let sn = sh as nat;
        let d = (w - sh) as nat;
        assert(t - ct == d);
        lemma_p2_split(d, cn);
        assert(tn == d + cn);
        let y = v * p2(d);
        assert(x == y * p2(cn) + 0) by (nonlinear_arith)
            requires
                x == v * p2(tn),
                y == v * p2(d),
                p2(tn) == p2(d) * p2(cn),
        ;
        lemma_fundamental_div_mod_converse_div(x, p2(cn), y, 0);
        lemma_p2_split(d, sn);
        assert(wn == d + sn);
        lemma_truncate_middle(v, p2(d), p2(sn));
        assert(p2(d) * v == y) by (nonlinear_arith)
            requires
                y == v * p2(d),
        ;
        lemma_fundamental_div_mod(v, p2(sn));
        assert(0 <= (v % p2(sn)) * p2(d) < p2(wn)) by (nonlinear_arith)
            requires
                0 <= v % p2(sn) < p2(sn),
                p2(d) > 0,
                p2(wn) == p2(d) * p2(sn),
        ;
        assert(p2(d) * (v % p2(sn)) == (v % p2(sn)) * p2(d)) by (nonlinear_arith);
    } else {
        let d = (ct - t) as nat;
        lemma_p2_split(tn, d);
        assert(cn == tn + d);
        lemma_div_denominator(x, p2(tn), p2(d));
        lemma_div_multiples_vanish_fancy(v, 0, p2(tn));
        assert(p2(tn) * v + 0 == x) by (nonlinear_arith)
            requires
                x == v * p2(tn),
        ;
        assert(x / p2(cn) == v / p2(d));
        let y = v / p2(d);
        assert(y >= 0) by {
            vstd::arithmetic::div_mod::lemma_div_pos_is_pos(v, p2(d));
        }
    }
}

/// A value of `h - t + 1` bits placed at bit `t` of a 31-bit code: the part that
/// `encode_part` puts into storage unit `i` is the slice of `w` bits of `v * 2^t` that starts
/// at bit `i * w`.
pub proof fn lemma_part_is_slice(v: int, h: int, t: int, w: int, i: int)
    requires
        1 <= w <= 8,
        0 <= t <= h <= 30,
        0 <= i,
        0 <= v < p2((h - t + 1) as nat),
    ensures
        encode_part(v, h, t, w, i) == ((v * p2(t as nat)) / p2((i * w) as nat)) % p2(w as nat),
        0 <= encode_part(v, h, t, w, i) < p2(w as nat),
{
    lemma_natural_part_is_slice(v, h, t, w, i);
    lemma_encode_part_is_natural(v, h, t, w, i);
}

/// Within 31 bits, `encode_part` with its `i32` operations and `natural_part` agree.
proof fn lemma_encode_part_is_natural(v: int, h: int, t: int, w: int, i: int)
    requires
        1 <= w <= 8,
        0 <= t <= h <= 30,
        0 <= i,
        0 <= v,
    ensures
        encode_part(v, h, t, w, i) == natural_part(v, h, t, w, i),
{
    let ct = i * w;
    let ch = (i + 1) * w - 1;
    assert(ch == ct + w - 1) by (nonlinear_arith)
        requires
            ct == i * w,
            ch == (i + 1) * w - 1,
    ;
    assert(ct >= 0) by (nonlinear_arith)
        requires
            ct == i * w,
            i >= 0,
            w >= 1,
    ;
    if t > ch || h < ct {
    } else if t >= ct && h <= ch {
        assert(shl_one((t - ct) as nat) == p2((t - ct) as nat));
    } else if t < ct && h <= ch {
        let d = (ct - t) as nat;
        lemma_pow2_pos(d);
        assert(shl_one(d) == p2(d));
        assert(tdiv(v, p2(d)) == v / p2(d)) by {
            if v == 0 {
                assert(0int / p2(d) == 0);
            }
        }
    } else if t >= ct && h > ch {
        let sn = (ch + 1 - t) as nat;
        let d = (w - (ch + 1 - t)) as nat;
        lemma_pow2_pos(sn);
        assert(shl_one(sn) == p2(sn));
        assert(shl_one(d) == p2(d));
        assert(trem(v, p2(sn)) == v % p2(sn)) by {
            if v == 0 {
                assert(0int % p2(sn) == 0);
            }
        }
    } else {
        let d = (ct - t) as nat;
        let wn = w as nat;
        lemma_pow2_pos(d);
        lemma_pow2_pos(wn);
        let y = v / p2(d);
        assert(y >= 0) by {
            vstd::arithmetic::div_mod::lemma_div_pos_is_pos(v, p2(d));
        }
        assert(shl_one(d) == p2(d));
        assert(shl_one(wn) == p2(wn));
        assert(tdiv(v, p2(d)) == y) by {
            if v == 0 {
                assert(0int / p2(d) == 0);
            }
        }
        assert(trem(y, p2(wn)) == y % p2(wn)) by {
            if y == 0 {
                assert(0int % p2(wn) == 0);
            }
        }
    }
}

/// A unit whose fields lie next to each other, the first in the highest bits, all within the
/// 31 bits of an `i32`: each field ends one bit below where the one before it starts, and
/// each value fits its field; storage units have `w` bits, at most a byte.
pub open spec fn laid_out(u: EncodeUnitView, w: int) -> bool {
    let n = u.values.len();
    &&& n >= 1
    &&& u.heads.len() == n
    &&& u.tails.len() == n
    &&& 1 <= w <= 8
    &&& forall|j: int| 0 <= j < n ==> u.tails[j] <= #[trigger] u.heads[j]
    &&& forall|j: int| 0 < j < n ==> #[trigger] u.heads[j] + 1 == u.tails[j - 1]
    &&& forall|j: int|
        0 <= j < n ==> 0 <= #[trigger] u.values[j] < p2((u.heads[j] - u.tails[j] + 1) as nat)
    &&& u.heads[0] <= 30
}

/// The first `m` fields of a unit read as one number, counted in units of their lowest bit.
pub open spec fn high_part(u: EncodeUnitView, m: int) -> int
    decreases m,
{
    if m <= 1 {
        u.values[0] as int
    } else {
        high_part(u, m - 1) * p2((u.tails[m - 2] - u.tails[m - 1]) as nat) + u.values[m - 1]
    }
}

/// The number that the first `m` fields of a unit spell, each at its own bits.
pub open spec fn unit_number(u: EncodeUnitView, m: int) -> int {
    if m <= 0 {
        0
    } else {
        high_part(u, m) * p2(u.tails[m - 1] as nat)
    }
}

/// The bit below which field `m` lies: the tail of the field before it, or the top of the first.
spec fn field_top(u: EncodeUnitView, m: int) -> nat {
    if m == 0 {
        (u.heads[0] + 1) as nat
    } else {
        u.tails[m - 1] as nat
    }
}

/// The multiple of `2^field_top` that the first `m` fields spell.
spec fn field_base(u: EncodeUnitView, m: int) -> int {
    if m == 0 {
        0
    } else {
        high_part(u, m)
    }
}

proof fn lemma_high_part_nonneg(u: EncodeUnitView, w: int, m: int)
    requires
        laid_out(u, w),
        1 <= m <= u.values.len(),
    ensures
        high_part(u, m) >= 0,
    decreases m,
{
    if m > 1 {
        lemma_high_part_nonneg(u, w, m - 1);
        let e = (u.tails[m - 2] - u.tails[m - 1]) as nat;
        lemma_pow2_pos(e);
        assert(u.values[m - 1] >= 0);
        assert(high_part(u, m - 1) * p2(e) >= 0) by (nonlinear_arith)
            requires
                high_part(u, m - 1) >= 0,
                p2(e) > 0,
        ;
    } else {
        assert(u.values[0] >= 0);
    }
}

/// Field `m` adds its value at its own bits to what the fields above it spell, below the
/// lowest of their bits.
proof fn lemma_unit_number_step(u: EncodeUnitView, w: int, m: int)
    requires
        laid_out(u, w),
        0 <= m < u.values.len(),
    ensures
        field_base(u, m) >= 0,
        unit_number(u, m) == field_base(u, m) * p2(field_top(u, m)),
        unit_number(u, m + 1) == unit_number(u, m) + u.values[m] * p2(u.tails[m] as nat),
        0 <= u.values[m] * p2(u.tails[m] as nat) < p2(field_top(u, m)),
{
    let t = u.tails[m] as nat;
    let l = (u.heads[m] - u.tails[m] + 1) as nat;
    assert(u.tails[m] <= u.heads[m]);
    assert(0 <= u.values[m] < p2(l));
    lemma_p2_split(l, t);
    assert(l + t == u.heads[m] + 1);
    assert(0 <= u.values[m] * p2(t) < p2((u.heads[m] + 1) as nat)) by (nonlinear_arith)
        requires
            0 <= u.values[m] < p2(l),
            p2(t) > 0,
            p2((l + t) as nat) == p2(l) * p2(t),
            l + t == u.heads[m] + 1,
    ;
    if m == 0 {
        assert(unit_number(u, 0) == 0);
        assert(0 * p2(field_top(u, 0)) == 0);
        assert(unit_number(u, 1) == u.values[0] * p2(t));
    } else {
        lemma_high_part_nonneg(u, w, m);
        assert(u.heads[m] + 1 == u.tails[m - 1]);
        let e = (u.tails[m - 1] - u.tails[m]) as nat;
        lemma_p2_split(e, t);
        assert(e + t == u.tails[m - 1]);
        assert(high_part(u, m + 1) == high_part(u, m) * p2(e) + u.values[m]);
        assert(unit_number(u, m + 1) == high_part(u, m + 1) * p2(t));
        assert(high_part(u, m + 1) * p2(t) == high_part(u, m) * p2((e + t) as nat) + u.values[m] * p2(t))
            by (nonlinear_arith)
            requires
                high_part(u, m + 1) == high_part(u, m) * p2(e) + u.values[m],
                p2((e + t) as nat) == p2(e) * p2(t),
        ;
    }
}

/// The byte that storage unit `i` holds is the slice of `w` bits of the unit's number from
/// bit `i * w` up.
proof fn lemma_unit_sum_is_slice(u: EncodeUnitView, w: int, i: int, m: int)
    requires
        laid_out(u, w),
        0 <= i,
        0 <= m <= u.values.len(),
    ensures
        unit_sum(u, w, i, m) == (unit_number(u, m) / p2((i * w) as nat)) % p2(w as nat),
    decreases m,
{
    let c = (i * w) as nat;
    let wn = w as nat;
    lemma_pow2_pos(c);
    lemma_pow2_pos(wn);
    assert(i * w >= 0) by (nonlinear_arith)
        requires
            i >= 0,
            w >= 1,
    ;
    if m == 0 {
        assert(0int / p2(c) == 0);
        assert(0int % p2(wn) == 0);
    } else {
        let k = m - 1;
        lemma_unit_sum_is_slice(u, w, i, k);
        lemma_unit_number_step(u, w, k);
        let v = u.values[k] as int;
        let h = u.heads[k] as int;
        let t = u.tails[k] as int;
        assert(u.tails[k] <= u.heads[k]);
        lemma_fields_descend(u, w, 0, k);
        assert(0 <= v < p2((h - t + 1) as nat));
        lemma_part_is_slice(v, h, t, w, i);
        lemma_p2_le(wn, 8);
        assert(p2(8) == 256) by {
            vstd::arithmetic::power2::lemma2_to64();
        }
        lemma_small_mod(encode_part(v, h, t, w, i) as nat, 256);
        lemma_slice_add(field_base(u, k), field_top(u, k), v * p2(t as nat), c, wn);
    }
}

/// The tails of later fields are lower, and so are their heads.
proof fn lemma_fields_descend(u: EncodeUnitView, w: int, j: int, k: int)
    requires
        laid_out(u, w),
        0 <= j <= k < u.values.len(),
    ensures
        u.tails[k] <= u.tails[j],
        u.heads[k] <= u.heads[j],
    decreases k - j,
{
    if j < k {
        lemma_fields_descend(u, w, j, k - 1);
        assert(u.heads[k] + 1 == u.tails[k - 1]);
        assert(u.tails[k] <= u.heads[k]);
        assert(u.tails[k - 1] <= u.heads[k - 1]);
    }
}

/// Reading the bits of field `j` from the number that the first `m` fields spell gives its value.
proof fn lemma_field_of_number(u: EncodeUnitView, w: int, j: int, m: int)
    requires
        laid_out(u, w),
        0 <= j < m <= u.values.len(),
    ensures
        (unit_number(u, m) / p2(u.tails[j] as nat)) % p2((u.heads[j] - u.tails[j] + 1) as nat)
            == u.values[j],
    decreases m,
{
    let t = u.tails[j] as nat;
    let l = (u.heads[j] - u.tails[j] + 1) as nat;
    assert(u.tails[j] <= u.heads[j]);
    lemma_pow2_pos(t);
    lemma_pow2_pos(l);
    assert(0 <= u.values[j] < p2(l));
    if m == j + 1 {
        lemma_high_part_nonneg(u, w, m);
        lemma_div_multiples_vanish_fancy(high_part(u, m), 0, p2(t));
        assert(p2(t) * high_part(u, m) + 0 == high_part(u, m) * p2(t)) by (nonlinear_arith);
        assert(unit_number(u, m) / p2(t) == high_part(u, m));
        lemma_small_mod(u.values[j] as nat, p2(l) as nat);
        if j > 0 {
            lemma_high_part_nonneg(u, w, j);
            assert(u.heads[j] + 1 == u.tails[j - 1]);
            assert(high_part(u, m) == high_part(u, j) * p2(l) + u.values[j]);
            assert(high_part(u, j) * p2(l) == p2(l) * high_part(u, j)) by (nonlinear_arith);
            lemma_mod_multiples_vanish(high_part(u, j), u.values[j] as int, p2(l));
        }
    } else {
        let k = m - 1;
        lemma_field_of_number(u, w, j, k);
        lemma_unit_number_step(u, w, k);
        lemma_fields_descend(u, w, j, k);
        if k > 0 {
            lemma_fields_descend(u, w, j, k - 1);
        }
        let x = u.values[k] * p2(u.tails[k] as nat);
        lemma_p2_le(field_top(u, k), t);
        lemma_fundamental_div_mod_converse_div(x, p2(t), 0, x);
        assert(0int % p2(l) == 0);
        lemma_slice_add(field_base(u, k), field_top(u, k), x, t, l);
    }
}

/// The bytes of the units from the one at bit `tail` up to `k` units above it, read as
/// `decode_value` reads the low units of a field, give the bits of the number from bit `tail`
/// up to the top of the `k`-th unit above.
proof fn lemma_decode_low_units(code: Seq<u8>, num: int, tail: int, w: int, k: int)
    requires
        num >= 0,
        1 <= w <= 8,
        0 <= tail,
        0 <= k,
        tail / w + k < code.len(),
        forall|i: int| tail / w <= i <= tail / w + k ==> #[trigger] code[code.len() - 1 - i] as int == (num / p2((i * w) as nat)) % p2(w as nat),
    ensures
        (code[code.len() - 1 - tail / w] as int) / p2((tail % w) as nat) + decode_middle(
            code,
            code.len() - 1 - tail / w,
            tail % w,
            w,
            k,
        ) == (num / p2(tail as nat)) % p2((w - tail % w + k * w) as nat),
    decreases k,
{
    let ti = tail / w;
    let to = tail % w;
    let n = code.len() as int;
    lemma_fundamental_div_mod(tail, w);
    let ton = to as nat;
    let d = (w - to) as nat;
    let wn = w as nat;
    let p = num / p2(tail as nat);
    lemma_pow2_pos(tail as nat);
    assert(p >= 0) by {
        vstd::arithmetic::div_mod::lemma_div_pos_is_pos(num, p2(tail as nat));
    }
    assert(ti >= 0) by {
        vstd::arithmetic::div_mod::lemma_div_pos_is_pos(tail, w);
    }
    if k == 0 {
        let c = (ti * w) as nat;
        assert(ti * w >= 0) by (nonlinear_arith)
            requires
                ti >= 0,
                w >= 1,
        ;
        lemma_pow2_pos(c);
        let m = num / p2(c);
        assert(m >= 0) by {
            vstd::arithmetic::div_mod::lemma_div_pos_is_pos(num, p2(c));
        }
        lemma_p2_split(c, ton);
        assert(tail == c + ton) by (nonlinear_arith)
            requires
                tail == w * ti + to,
                c == ti * w,
                ton == to,
        ;
        lemma_div_denominator(num, p2(c), p2(ton));
        assert(p == m / p2(ton));
        lemma_p2_split(ton, d);
        assert(wn == ton + d);
        assert(code[n - 1 - ti] as int == m % p2(wn));
        lemma_mod_breakdown(m, p2(ton), p2(d));
        lemma_fundamental_div_mod(m, p2(ton));
        let q = (m / p2(ton)) % p2(d);
        lemma_fundamental_div_mod_converse_div(m % p2(wn), p2(ton), q, m % p2(ton));
        assert(p2(ton) * q + m % p2(ton) == q * p2(ton) + m % p2(ton)) by (nonlinear_arith);
        assert(decode_middle(code, n - 1 - ti, to, w, 0) == 0);
        assert((w - to + 0 * w) as nat == d);
    } else {
        lemma_decode_low_units(code, num, tail, w, k - 1);
        let dd = (w - to + (k - 1) * w) as nat;
        assert(w - to + (k - 1) * w >= 0) by (nonlinear_arith)
            requires
                k >= 1,
                w >= 1,
                0 <= to < w,
        ;
        let i = ti + k;
        assert(code[n - 1 - i] as int == (num / p2((i * w) as nat)) % p2(wn));
        assert(i * w == tail + dd) by (nonlinear_arith)
            requires
                i == ti + k,
                tail == w * ti + to,
                dd == w - to + (k - 1) * w,
        ;
        lemma_p2_split(tail as nat, dd);
        lemma_div_denominator(num, p2(tail as nat), p2(dd));
        assert(num / p2((i * w) as nat) == p / p2(dd));
        assert(decode_middle(code, n - 1 - ti, to, w, k) == decode_middle(code, n - 1 - ti, to, w, k - 1)
            + code[n - 1 - ti - k] as int * pow2(dd) as int);
        assert(n - 1 - ti - k == n - 1 - i);
        lemma_p2_split(dd, wn);
        assert((w - to + k * w) as nat == dd + wn) by (nonlinear_arith)
            requires
                dd == w - to + (k - 1) * w,
                wn == w,
        ;
        lemma_mod_breakdown(p, p2(dd), p2(wn));
        assert(p2(dd) * ((p / p2(dd)) % p2(wn)) == ((p / p2(dd)) % p2(wn)) * p2(dd)) by (nonlinear_arith);
    }
}

/// Where the storage units from the one at bit `tail` to the one at bit `head` hold the slices
/// of `w` bits of a number, `decode_value` reads bits `tail..=head` of that number.
pub proof fn lemma_decode_slices(code: Seq<u8>, num: int, head: int, tail: int, w: int)
    requires
        num >= 0,
        1 <= w <= 8,
        0 <= tail <= head,
        head / w < code.len(),
        forall|i: int| tail / w <= i <= head / w ==> #[trigger] code[code.len() - 1 - i] as int == (num / p2((i * w) as nat)) % p2(w as nat),
    ensures
        decode_value(code, head, tail, w) == (num / p2(tail as nat)) % p2((head - tail + 1) as nat),
{
    let ti = tail / w;
    let hi = head / w;
    let to = tail % w;
    let ho = head % w;
    lemma_fundamental_div_mod(tail, w);
    lemma_fundamental_div_mod(head, w);
    assert(0 <= ti <= hi) by (nonlinear_arith)
        requires
            tail == w * ti + to,
            head == w * hi + ho,
            0 <= to < w,
            0 <= ho < w,
            0 <= tail <= head,
    ;
    let wn = w as nat;
    let n = code.len() as int;
    let p = num / p2(tail as nat);
    lemma_pow2_pos(tail as nat);
    assert(p >= 0) by {
        vstd::arithmetic::div_mod::lemma_div_pos_is_pos(num, p2(tail as nat));
    }
    let ton = to as nat;
    if hi == ti {
        let c = (ti * w) as nat;
        assert(ti * w >= 0) by (nonlinear_arith)
            requires
                ti >= 0,
                w >= 1,
        ;
        lemma_pow2_pos(c);
        let m = num / p2(c);
        assert(m >= 0) by {
            vstd::arithmetic::div_mod::lemma_div_pos_is_pos(num, p2(c));
        }
        lemma_p2_split(c, ton);
        assert(tail == c + ton) by (nonlinear_arith)
            requires
                tail == w * ti + to,
                c == ti * w,
                ton == to,
        ;
        lemma_div_denominator(num, p2(c), p2(ton));
        assert(code[n - 1 - ti] as int == m % p2(wn));
        assert(ho >= to) by (nonlinear_arith)
            requires
                tail == w * ti + to,
                head == w * hi + ho,
                hi == ti,
                tail <= head,
        ;
        let l = (ho - to + 1) as nat;
        assert(l == head - tail + 1);
        let hon = (ho + 1) as nat;
        lemma_p2_split(hon, (w - ho - 1) as nat);
        lemma_mod_mod(m, p2(hon), p2((w - ho - 1) as nat));
        lemma_p2_split(ton, l);
        assert(hon == ton + l);
        lemma_mod_breakdown(m, p2(ton), p2(l));
        lemma_fundamental_div_mod(m, p2(ton));
        let q = (m / p2(ton)) % p2(l);
        lemma_fundamental_div_mod_converse_div(m % p2(hon), p2(ton), q, m % p2(ton));
        assert(p2(ton) * q + m % p2(ton) == q * p2(ton) + m % p2(ton)) by (nonlinear_arith);
    } else {
        let k = hi - ti - 1;
        assert forall|i: int| tail / w <= i <= tail / w + k implies #[trigger] code[code.len() - 1 - i] as int == (num / p2((i * w) as nat)) % p2(w as nat) by {
        }
        lemma_decode_low_units(code, num, tail, w, k);
        let dd = (w - to + k * w) as nat;
        assert(w - to + k * w >= 0) by (nonlinear_arith)
            requires
                k >= 0,
                w >= 1,
                0 <= to < w,
        ;
        assert(hi * w == tail + dd) by (nonlinear_arith)
            requires
                hi == ti + k + 1,
                tail == w * ti + to,
                dd == w - to + k * w,
        ;
        lemma_p2_split(tail as nat, dd);
        lemma_div_denominator(num, p2(tail as nat), p2(dd));
        assert(code[n - 1 - hi] as int == (p / p2(dd)) % p2(wn));
        let hon = (ho + 1) as nat;
        lemma_pow2_pos(hon);
        lemma_p2_split(hon, (w - ho - 1) as nat);
        lemma_mod_mod(p / p2(dd), p2(hon), p2((w - ho - 1) as nat));
        assert((code[n - 1 - hi] as int) % p2(hon) == (p / p2(dd)) % p2(hon));
        lemma_p2_split(dd, hon);
        assert((head - tail + 1) as nat == dd + hon) by (nonlinear_arith)
            requires
                head == w * hi + ho,
                hi * w == tail + dd,
                hon == ho + 1,
        ;
        lemma_mod_breakdown(p, p2(dd), p2(hon));
        assert(p2(dd) * ((p / p2(dd)) % p2(hon)) == ((p / p2(dd)) % p2(hon)) * p2(dd)) by (nonlinear_arith);
        assert((w - to + (hi - ti - 1) * w) as nat == dd);
    }
}

/// Reading the bits of any field of a laid-out unit from its bytes gives back the value that
/// was placed there: what `get_decode_value_by_head_tail` returns on the code that `to_vec_u8`
/// builds, at the head and tail of field `j`, is the field's value.
pub proof fn lemma_decode_recovers_value(u: EncodeUnitView, w: int, j: int)
    requires
        laid_out(u, w),
        0 <= j < u.values.len(),
    ensures
        decode_value(unit_bytes(u, w), u.heads[j] as int, u.tails[j] as int, w) == u.values[j],
{
    let n = u.values.len() as int;
    let code = unit_bytes(u, w);
    let cnt = unit_count(u, w);
    let num = unit_number(u, n);
    let h = u.heads[j] as int;
    let t = u.tails[j] as int;
    assert(t <= h);
    lemma_fields_descend(u, w, 0, j);
    lemma_div_is_ordered(h, u.heads[0] as int, w);
    lemma_div_is_ordered(t, h, w);
    assert(t / w >= 0);
    assert(code.len() == cnt);
    lemma_unit_number_step(u, w, n - 1);
    assert(num >= 0) by (nonlinear_arith)
        requires
            num == unit_number(u, n - 1) + u.values[n - 1] * p2(u.tails[n - 1] as nat),
            unit_number(u, n - 1) == field_base(u, n - 1) * p2(field_top(u, n - 1)),
            field_base(u, n - 1) >= 0,
            p2(field_top(u, n - 1)) >= 0,
            u.values[n - 1] * p2(u.tails[n - 1] as nat) >= 0,
    ;
    lemma_p2_le(w as nat, 8);
    assert(p2(8) == 256) by {
        vstd::arithmetic::power2::lemma2_to64();
    }
    let ti = t / w;
    let hi = h / w;
    lemma_pow2_pos(w as nat);
    assert forall|i: int| t / w <= i <= h / w implies #[trigger] code[code.len() - 1 - i] as int == (num / p2((i * w) as nat)) % p2(w as nat) by {
        lemma_unit_sum_is_slice(u, w, i, n);
        assert(code[cnt - 1 - i] == unit_sum(u, w, i, n) as u8);
    }
    lemma_decode_slices(code, num, h, t, w);
    lemma_field_of_number(u, w, j, n);
}

/// A laid-out unit can be written and read back: `to_vec_u8` is defined on it,
/// `get_decode_value_by_head_tail` is defined on its bytes at the head and tail of each
/// field, and what it reads there is the field's value.
pub proof fn lemma_unit_round_trip(u: EncodeUnitView, w: int, j: int)
    requires
        laid_out(u, w),
        0 <= j < u.values.len(),
    ensures
        encodable(u, w),
        decode_defined(unit_bytes(u, w), u.heads[j] as int, u.tails[j] as int, w),
        decode_value(unit_bytes(u, w), u.heads[j] as int, u.tails[j] as int, w) == u.values[j],
{
    let n = u.values.len() as int;
    let cnt = unit_count(u, w);
    let h0 = u.heads[0] as int;
    lemma_p2_le(w as nat, 8);
    assert(p2(8) == 256) by {
        vstd::arithmetic::power2::lemma2_to64();
    }
    vstd::arithmetic::div_mod::lemma_fundamental_div_mod(h0, w);
    assert(cnt * w <= h0 + w) by (nonlinear_arith)
        requires
            cnt == h0 / w + 1,
            w >= 1,
            h0 >= 0,
            w * (h0 / w) <= h0,
    ;
    assert forall|k: int, i: int| 0 <= k < n && 0 <= i < cnt implies #[trigger] encode_part_defined(
        u.values[k] as int,
        u.heads[k] as int,
        u.tails[k] as int,
        w,
        i,
    ) by {
        lemma_fields_descend(u, w, 0, k);
        lemma_part_is_slice(u.values[k] as int, u.heads[k] as int, u.tails[k] as int, w, i);
        lemma_encode_part_is_natural(u.values[k] as int, u.heads[k] as int, u.tails[k] as int, w, i);
        assert((i + 1) * w <= cnt * w) by (nonlinear_arith)
            requires
                i + 1 <= cnt,
                w >= 1,
        ;
        assert(i * w + w == (i + 1) * w) by (nonlinear_arith);
    }
    let num = unit_number(u, n);
    assert forall|i: int| 0 <= i < cnt implies #[trigger] unit_sum(u, w, i, n) <= 255 by {
        lemma_unit_sum_is_slice(u, w, i, n);
        lemma_pow2_pos((i * w) as nat);
        lemma_pow2_pos(w as nat);
    }
    lemma_decode_recovers_value(u, w, j);
    let h = u.heads[j] as int;
    let t = u.tails[j] as int;
    lemma_fields_descend(u, w, 0, j);
    lemma_div_is_ordered(h, h0, w);
    lemma_div_is_ordered(t, h, w);
    vstd::arithmetic::div_mod::lemma_fundamental_div_mod(h, w);
    vstd::arithmetic::div_mod::lemma_fundamental_div_mod(t, w);
    assert(w * (h / w) - t <= h - t);
    assert(w - t % w + (h / w - t / w - 1) * w == w * (h / w) - t) by (nonlinear_arith)
        requires
            t == w * (t / w) + t % w,
    ;
    lemma_p2_le((h - t + 1) as nat, 31);
    assert(p2(31) == 0x8000_0000) by {
        vstd::arithmetic::power2::lemma2_to64();
    }
}

/// The unit of a pattern edge is laid out wherever each of its bit counts is at least one,
/// they fit the 31 bits of an `i32` together, and each value fits its bits.
pub proof fn lemma_pattern_edge_unit_laid_out(p: PatternView, e: PatternEdge, el: int, vl: int, vi: int, w: int)
    requires
        1 <= el,
        1 <= vl,
        1 <= vi,
        el + 2 * vl + 2 * vi <= 31,
        1 <= w <= 8,
        0 <= e.label < p2(el as nat),
        0 <= e.start_v_label < p2(vl as nat),
        0 <= e.end_v_label < p2(vl as nat),
        0 <= p.vertices[e.start_v_id].rank < p2(vi as nat),
        0 <= p.vertices[e.end_v_id].rank < p2(vi as nat),
    ensures
        laid_out(pattern_edge_unit(p, e, el, vl, vi), w),
{
    let u = pattern_edge_unit(p, e, el, vl, vi);
    assert(u.values[0] == e.label);
    assert(u.heads[0] - u.tails[0] + 1 == el);
    assert(u.heads[3] - u.tails[3] + 1 == vi);
}

/// The bytes of a pattern edge's unit hold, from the highest bits down, the edge's label, the
/// labels of its start and end vertices, and the ranks of its start and end vertices, each in
/// its own field: reading a field back gives exactly that value, and reading is defined there.
pub proof fn lemma_pattern_edge_code_fields(p: PatternView, e: PatternEdge, el: int, vl: int, vi: int, w: int)
    requires
        1 <= el,
        1 <= vl,
        1 <= vi,
        el + 2 * vl + 2 * vi <= 31,
        1 <= w <= 8,
        0 <= e.label < p2(el as nat),
        0 <= e.start_v_label < p2(vl as nat),
        0 <= e.end_v_label < p2(vl as nat),
        0 <= p.vertices[e.start_v_id].rank < p2(vi as nat),
        0 <= p.vertices[e.end_v_id].rank < p2(vi as nat),
    ensures
        encodable(pattern_edge_unit(p, e, el, vl, vi), w),
        decode_defined(unit_bytes(pattern_edge_unit(p, e, el, vl, vi), w), el + 2 * vl + 2 * vi - 1, 2 * vl + 2 * vi, w),
        decode_value(unit_bytes(pattern_edge_unit(p, e, el, vl, vi), w), el + 2 * vl + 2 * vi - 1, 2 * vl + 2 * vi, w) == e.label,
        decode_defined(unit_bytes(pattern_edge_unit(p, e, el, vl, vi), w), 2 * vl + 2 * vi - 1, vl + 2 * vi, w),
        decode_value(unit_bytes(pattern_edge_unit(p, e, el, vl, vi), w), 2 * vl + 2 * vi - 1, vl + 2 * vi, w) == e.start_v_label,
        decode_defined(unit_bytes(pattern_edge_unit(p, e, el, vl, vi), w), vl + 2 * vi - 1, 2 * vi, w),
        decode_value(unit_bytes(pattern_edge_unit(p, e, el, vl, vi), w), vl + 2 * vi - 1, 2 * vi, w) == e.end_v_label,
        decode_defined(unit_bytes(pattern_edge_unit(p, e, el, vl, vi), w), 2 * vi - 1, vi, w),
        decode_value(unit_bytes(pattern_edge_unit(p, e, el, vl, vi), w), 2 * vi - 1, vi, w) == p.vertices[e.start_v_id].rank,
        decode_defined(unit_bytes(pattern_edge_unit(p, e, el, vl, vi), w), vi - 1, 0, w),
        decode_value(unit_bytes(pattern_edge_unit(p, e, el, vl, vi), w), vi - 1, 0, w) == p.vertices[e.end_v_id].rank,
{
    let u = pattern_edge_unit(p, e, el, vl, vi);
    lemma_pattern_edge_unit_laid_out(p, e, el, vl, vi, w);
    lemma_unit_round_trip(u, w, 0);
    lemma_unit_round_trip(u, w, 1);
    lemma_unit_round_trip(u, w, 2);
    lemma_unit_round_trip(u, w, 3);
    lemma_unit_round_trip(u, w, 4);
}

/// The bytes of an extend edge's unit hold, from the highest bits down, the label and rank of
/// its start vertex, its edge label and its direction (0 out, 1 in), each in its own field:
/// reading a field back gives exactly that value, and reading is defined there.
pub proof fn lemma_extend_edge_code_fields(e: ExtendEdge, el: int, vl: int, dl: int, vi: int, w: int)
    requires
        1 <= el,
        1 <= vl,
        1 <= dl,
        1 <= vi,
        vl + vi + el + dl <= 31,
        1 <= w <= 8,
        0 <= e.start_v_label < p2(vl as nat),
        0 <= e.start_v_rankid < p2(vi as nat),
        0 <= e.edge_label < p2(el as nat),
    ensures
        encodable(extend_edge_unit(e, el, vl, dl, vi), w),
        decode_defined(unit_bytes(extend_edge_unit(e, el, vl, dl, vi), w), vl + vi + el + dl - 1, vi + el + dl, w),
        decode_value(unit_bytes(extend_edge_unit(e, el, vl, dl, vi), w), vl + vi + el + dl - 1, vi + el + dl, w) == e.start_v_label,
        decode_defined(unit_bytes(extend_edge_unit(e, el, vl, dl, vi), w), vi + el + dl - 1, el + dl, w),
        decode_value(unit_bytes(extend_edge_unit(e, el, vl, dl, vi), w), vi + el + dl - 1, el + dl, w) == e.start_v_rankid,
        decode_defined(unit_bytes(extend_edge_unit(e, el, vl, dl, vi), w), el + dl - 1, dl, w),
        decode_value(unit_bytes(extend_edge_unit(e, el, vl, dl, vi), w), el + dl - 1, dl, w) == e.edge_label,
        decode_defined(unit_bytes(extend_edge_unit(e, el, vl, dl, vi), w), dl - 1, 0, w),
        decode_value(unit_bytes(extend_edge_unit(e, el, vl, dl, vi), w), dl - 1, 0, w) == (if e.dir == PatternDirection::Out { 0int } else { 1int }),
{
    let u = extend_edge_unit(e, el, vl, dl, vi);
    lemma_extend_edge_unit_laid_out(e, el, vl, dl, vi, w);
    lemma_unit_round_trip(u, w, 0);
    lemma_unit_round_trip(u, w, 1);
    lemma_unit_round_trip(u, w, 2);
    lemma_unit_round_trip(u, w, 3);
}

/// In the code of a pattern, the unit of edge `e` holds, in fields as wide as the encoder
/// says (edge label, then two vertex labels, then two vertex indices, from the highest bits
/// down), the edge's label, the labels of its start and end vertices and the ranks of its
/// start and end vertices.
pub proof fn lemma_edge_unit_fields(p: PatternView, e: PatternId, encoder: Encoder, w: int)
    requires
        1 <= encoder.spec_edge_label_bit_num(),
        1 <= encoder.spec_vertex_label_bit_num(),
        1 <= encoder.spec_vertex_index_bit_num(),
        encoder.spec_edge_label_bit_num() + 2 * encoder.spec_vertex_label_bit_num() + 2 * encoder.spec_vertex_index_bit_num() <= 31,
        1 <= w <= 8,
        0 <= p.edges[e].label < p2(encoder.spec_edge_label_bit_num() as nat),
        0 <= p.edges[e].start_v_label < p2(encoder.spec_vertex_label_bit_num() as nat),
        0 <= p.edges[e].end_v_label < p2(encoder.spec_vertex_label_bit_num() as nat),
        0 <= p.vertices[p.edges[e].start_v_id].rank < p2(encoder.spec_vertex_index_bit_num() as nat),
        0 <= p.vertices[p.edges[e].end_v_id].rank < p2(encoder.spec_vertex_index_bit_num() as nat),
    ensures
        ({
            let el = encoder.spec_edge_label_bit_num() as int;
            let vl = encoder.spec_vertex_label_bit_num() as int;
            let vi = encoder.spec_vertex_index_bit_num() as int;
            let code = unit_bytes(edge_unit(p, e, encoder), w);
            &&& decode_value(code, el + 2 * vl + 2 * vi - 1, 2 * vl + 2 * vi, w) == p.edges[e].label
            &&& decode_value(code, 2 * vl + 2 * vi - 1, vl + 2 * vi, w) == p.edges[e].start_v_label
            &&& decode_value(code, vl + 2 * vi - 1, 2 * vi, w) == p.edges[e].end_v_label
            &&& decode_value(code, 2 * vi - 1, vi, w) == p.vertices[p.edges[e].start_v_id].rank
            &&& decode_value(code, vi - 1, 0, w) == p.vertices[p.edges[e].end_v_id].rank
        }),
{
    lemma_pattern_edge_code_fields(
        p,
        p.edges[e],
        encoder.spec_edge_label_bit_num() as int,
        encoder.spec_vertex_label_bit_num() as int,
        encoder.spec_vertex_index_bit_num() as int,
        w,
    );
}

/// In the code of an extend step, the unit of extend edge `e` holds, in fields as wide as the
/// encoder says, the label and rank of its start vertex, its edge label and its direction.
pub proof fn lemma_extend_unit_fields(e: ExtendEdge, encoder: Encoder, w: int)
    requires
        1 <= encoder.spec_edge_label_bit_num(),
        1 <= encoder.spec_vertex_label_bit_num(),
        1 <= encoder.spec_direction_bit_num(),
        1 <= encoder.spec_vertex_index_bit_num(),
        encoder.spec_vertex_label_bit_num() + encoder.spec_vertex_index_bit_num() + encoder.spec_edge_label_bit_num()
            + encoder.spec_direction_bit_num() <= 31,
        1 <= w <= 8,
        0 <= e.start_v_label < p2(encoder.spec_vertex_label_bit_num() as nat),
        0 <= e.start_v_rankid < p2(encoder.spec_vertex_index_bit_num() as nat),
        0 <= e.edge_label < p2(encoder.spec_edge_label_bit_num() as nat),
    ensures
        ({
            let el = encoder.spec_edge_label_bit_num() as int;
            let vl = encoder.spec_vertex_label_bit_num() as int;
            let dl = encoder.spec_direction_bit_num() as int;
            let vi = encoder.spec_vertex_index_bit_num() as int;
            let code = unit_bytes(extend_unit(e, encoder), w);
            &&& decode_value(code, vl + vi + el + dl - 1, vi + el + dl, w) == e.start_v_label
            &&& decode_value(code, vi + el + dl - 1, el + dl, w) == e.start_v_rankid
            &&& decode_value(code, el + dl - 1, dl, w) == e.edge_label
            &&& decode_value(code, dl - 1, 0, w) == (if e.dir == PatternDirection::Out { 0int } else { 1int })
        }),
{
    lemma_extend_edge_code_fields(
        e,
        encoder.spec_edge_label_bit_num() as int,
        encoder.spec_vertex_label_bit_num() as int,
        encoder.spec_direction_bit_num() as int,
        encoder.spec_vertex_index_bit_num() as int,
        w,
    );
}

/// The unit of an extend edge is laid out wherever each of its bit counts is at least one,
/// they fit the 31 bits of an `i32` together, and each value fits its bits.
pub proof fn lemma_extend_edge_unit_laid_out(e: ExtendEdge, el: int, vl: int, dl: int, vi: int, w: int)
    requires
        1 <= el,
        1 <= vl,
        1 <= dl,
        1 <= vi,
        vl + vi + el + dl <= 31,
        1 <= w <= 8,
        0 <= e.start_v_label < p2(vl as nat),
        0 <= e.start_v_rankid < p2(vi as nat),
        0 <= e.edge_label < p2(el as nat),
    ensures
        laid_out(extend_edge_unit(e, el, vl, dl, vi), w),
{
    lemma_p2_le(1, dl as nat);
    assert(p2(1) == 2) by {
        vstd::arithmetic::power2::lemma2_to64();
    }
    assert(0 <= dir_code(e.dir) < 2);
}

/// The number that a code spells, its last byte being storage unit 0 and each storage unit
/// counting as `w` bits.
pub open spec fn code_number(code: Seq<u8>, w: int) -> int
    decreases code.len(),
{
    if code.len() == 0 {
        0
    } else {
        code_number(code.drop_last(), w) * p2(w as nat) + code.last() as int
    }
}

/// Where every byte of a code fits in `w` bits, storage unit `i` of the code is the slice of
/// `w` bits of its number that starts at bit `i * w`.
proof fn lemma_code_number_slices(code: Seq<u8>, w: int, i: int)
    requires
        1 <= w,
        forall|k: int| 0 <= k < code.len() ==> (#[trigger] code[k] as int) < p2(w as nat),
        0 <= i < code.len(),
    ensures
        code_number(code, w) >= 0,
        code[code.len() - 1 - i] as int == (code_number(code, w) / p2((i * w) as nat)) % p2(w as nat),
    decreases code.len(),
{
    let n = code.len() as int;
    let rest = code.drop_last();
    let pw = p2(w as nat);
    lemma_pow2_pos(w as nat);
    let last = code.last() as int;
    assert(code[n - 1] as int == last);
    assert forall|k: int| 0 <= k < rest.len() implies (#[trigger] rest[k] as int) < pw by {
        assert(rest[k] == code[k]);
    }
    let nr = code_number(rest, w);
    if rest.len() > 0 {
        lemma_code_number_slices(rest, w, 0);
    }
    assert(nr >= 0);
    let num = nr * pw + last;
    assert(num == code_number(code, w));
    assert(num >= 0) by (nonlinear_arith)
        requires
            nr >= 0,
            pw > 0,
            last >= 0,
            num == nr * pw + last,
    ;
    lemma_fundamental_div_mod_converse_div(num, pw, nr, last);
    vstd::arithmetic::div_mod::lemma_fundamental_div_mod_converse_mod(num, pw, nr, last);
    if i == 0 {
        assert(p2(0) == 1) by {
            vstd::arithmetic::power2::lemma2_to64();
        }
        assert(num / 1 == num);
    } else {
        lemma_code_number_slices(rest, w, i - 1);
        assert(rest[rest.len() - 1 - (i - 1)] == code[n - 1 - i]);
        let e = ((i - 1) * w) as nat;
        assert((i - 1) * w >= 0) by (nonlinear_arith)
            requires
                i >= 1,
                w >= 1,
        ;
        assert((i * w) as nat == w as nat + e) by (nonlinear_arith)
            requires
                i >= 1,
                w >= 1,
                e == (i - 1) * w,
        ;
        lemma_p2_split(w as nat, e);
        lemma_div_denominator(num, pw, p2(e));
    }
}

/// `decode_value` reads bits `tail..=head` of the number that a code spells, wherever every
/// byte fits in `w` bits and the head lies within the code.
pub proof fn lemma_decode_value_reads_bits(code: Seq<u8>, head: int, tail: int, w: int)
    requires
        1 <= w <= 8,
        0 <= tail <= head,
        head / w < code.len(),
        forall|k: int| 0 <= k < code.len() ==> (#[trigger] code[k] as int) < p2(w as nat),
    ensures
        decode_value(code, head, tail, w) == (code_number(code, w) / p2(tail as nat)) % p2((head - tail + 1) as nat),
{
    let num = code_number(code, w);
    lemma_code_number_slices(code, w, 0);
    assert forall|i: int| tail / w <= i <= head / w implies #[trigger] code[code.len() - 1 - i] as int == (num / p2((i * w) as nat)) % p2(
        w as nat,
    ) by {
        lemma_div_is_ordered(0, tail, w);
        assert(0int / w == 0);
        lemma_code_number_slices(code, w, i);
    }
    lemma_decode_slices(code, num, head, tail, w);
}
} // verus!
