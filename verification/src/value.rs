//! Numeric semantics of signal values.
//!
//! A signal value is carried in a `u128` and is *canonical* for its declared
//! bit width `w`: the bits above `w` are always zero. Every combinational
//! operator below takes canonical operands and returns a canonical result.
//! Addition wraps at the operand width, `not` complements only the declared
//! width, `bits` shifts right and masks, `concat` shifts the upper operand
//! left by the width of the lower one, and the signed comparisons interpret
//! the top bit of the declared width as the sign.

use vstd::arithmetic::div_mod::lemma_fundamental_div_mod_converse;
use vstd::arithmetic::mul::{lemma_mul_inequality, lemma_mul_is_distributive_sub};
use vstd::arithmetic::power2::{
    lemma2_to64, lemma_pow2_adds, lemma_pow2_pos, lemma_pow2_strictly_increases,
    lemma_pow2_unfold, pow2,
};
use vstd::bits::lemma_u128_shr_is_div;
use vstd::prelude::*;

verus! {

/// `2^w` as a mathematical integer.
pub open spec fn pow2w(w: u32) -> int {
    pow2(w as nat) as int
}

/// `v` is canonical for width `w`: it fits in `w` bits.
pub open spec fn in_width(v: u128, w: u32) -> bool {
    (v as int) < pow2w(w)
}

/// The value of `v` of width `w` read as a two's-complement signed integer.
pub open spec fn as_signed(v: u128, w: u32) -> int
    recommends
        1 <= w <= 128,
        in_width(v, w),
{
    if (v as int) < pow2w((w - 1) as u32) {
        v as int
    } else {
        v as int - 2 * pow2w((w - 1) as u32)
    }
}

/// Complement of `v` within width `w`: all `w` declared bits flipped.
pub open spec fn not_val(v: u128, w: u32) -> int {
    pow2w(w) - 1 - v
}

/// Sum of `a` and `b`, wrapped at width `w`.
pub open spec fn add_val(a: u128, b: u128, w: u32) -> int {
    (a + b) % pow2w(w)
}

/// The field of bits `hi` down to `lo` of `v`, shifted down to bit 0.
pub open spec fn bits_val(v: u128, hi: u32, lo: u32) -> int
    recommends
        lo <= hi < 128,
{
    ((v as int) / pow2w(lo)) % pow2w((hi - lo + 1) as u32)
}

/// `hi_v` occupying the most significant bits above the `lo_w`-bit `lo_v`.
pub open spec fn concat_val(hi_v: u128, lo_v: u128, lo_w: u32) -> int {
    hi_v * pow2w(lo_w) + lo_v
}

/// `v` of width `w` repeated `n` times, the copies stacked upward.
pub open spec fn repeat_val(v: u128, w: u32, n: u32) -> int
    decreases n,
{
    if n == 0 {
        0
    } else {
        repeat_val(v, w, (n - 1) as u32) * pow2w(w) + v
    }
}

/// `2^w` for `w < 128` is the left shift of 1 by `w`.
pub proof fn lemma_shl1_is_pow2(w: u32)
    requires
        w < 128,
    ensures
        (1u128 << w) as int == pow2w(w),
    decreases w,
{
    if w == 0 {
        assert(1u128 << 0u32 == 1) by (bit_vector);
        assert(pow2(0) == 1) by {
            lemma2_to64();
        }
    } else {
        lemma_shl1_is_pow2((w - 1) as u32);
        let s = (w - 1) as u32;
        assert(1u128 << w == (1u128 << s) * 2) by (bit_vector)
            requires
                0 < w < 128 && s < 128 && s + 1 == w,
        ;
        lemma_pow2_unfold(w as nat);
        assert(pow2(w as nat) == 2 * pow2((w - 1) as nat));
    }
}

/// `2^128` written out.
pub proof fn lemma_pow2_128()
    ensures
        pow2w(128) == 0x1_0000_0000_0000_0000_0000_0000_0000_0000int,
{
    lemma_pow2_adds(64, 64);
    lemma2_to64();
}

/// `2^w` is monotone in `w`.
pub proof fn lemma_pow2w_le(w1: u32, w2: u32)
    requires
        w1 <= w2,
    ensures
        pow2w(w1) <= pow2w(w2),
{
    if w1 < w2 {
        lemma_pow2_strictly_increases(w1 as nat, w2 as nat);
    }
}

/// For widths up to 128, `2^w - 1` fits in a `u128`.
pub proof fn lemma_pow2w_bounds(w: u32)
    requires
        w <= 128,
    ensures
        1 <= pow2w(w),
        pow2w(w) - 1 <= u128::MAX,
{
    lemma_pow2_pos(w as nat);
    lemma_pow2w_le(w, 128);
    lemma_pow2_128();
}

/// The all-ones mask of width `w`, numerically `2^w - 1`.
pub fn mask_of(w: u32) -> (r: u128)
    requires
        1 <= w <= 128,
    ensures
        r as int == pow2w(w) - 1,
{
    if w == 128 {
        proof {
            lemma_pow2_128();
        }
        u128::MAX
    } else {
        proof {
            lemma_shl1_is_pow2(w);
            lemma_pow2_pos(w as nat);
        }
        (1u128 << w) - 1
    }
}

/// Shifting left by `s` multiplies by `2^s` when the product fits.
pub proof fn lemma_shl_is_mul_u128(x: u128, s: u32)
    requires
        s < 128,
        (x as int) * pow2w(s) <= u128::MAX,
    ensures
        (x << s) as int == (x as int) * pow2w(s),
    decreases s,
{
    lemma_pow2_pos(s as nat);
    if s == 0 {
        assert(x << 0u32 == x) by (bit_vector);
        assert(pow2(0) == 1) by {
            lemma2_to64();
        }
        assert(pow2w(s) == 1);
        assert((x as int) * 1 == x as int) by (nonlinear_arith);
        assert((x << s) as int == (x as int) * pow2w(s));
    } else {
        let s1 = (s - 1) as u32;
        lemma_pow2_unfold(s as nat);
        lemma_pow2_pos(s1 as nat);
        assert((x as int) * pow2w(s1) * 2 == (x as int) * pow2w(s)) by (nonlinear_arith)
            requires
                pow2w(s) == 2 * pow2w(s1),
        ;
        assert((x as int) * pow2w(s1) >= 0) by (nonlinear_arith)
            requires
                x >= 0,
                pow2w(s1) >= 1,
        ;
        lemma_shl_is_mul_u128(x, s1);
        let h = x << s1;
        assert(h <= u128::MAX / 2);
        assert(x << s == h << 1u32) by (bit_vector)
            requires
                0 < s < 128 && s1 + 1 == s && h == x << s1,
        ;
        assert(h << 1u32 == h * 2) by (bit_vector)
            requires
                h <= u128::MAX / 2,
        ;
        assert((x << s) as int == (h as int) * 2);
        assert((h as int) * 2 == (x as int) * pow2w(s1) * 2);
    }
}

/// Masking with the `w`-bit all-ones mask is reduction modulo `2^w`.
pub proof fn lemma_mask_is_mod(v: u128, w: u32)
    requires
        1 <= w < 128,
    ensures
        (v & (((1u128 << w) - 1) as u128)) as int == (v as int) % pow2w(w),
{
    lemma_shl1_is_pow2(w);
    lemma_pow2_pos(w as nat);
    let m = ((1u128 << w) - 1) as u128;
    let q = v >> w;
    let r = v & m;
    assert(r <= m) by (bit_vector)
        requires
            r == v & m,
    ;
    assert((q << w) as int + r == v) by (bit_vector)
        requires
            0 < w < 128 && m + 1 == 1u128 << w && q == v >> w && r == v & m,
    ;
    lemma_u128_shr_is_div(v, w as u128);
    assert(v >> (w as u128) == q) by (bit_vector)
        requires
            w < 128 && q == v >> w,
    ;
    assert((q as int) * pow2w(w) <= v) by {
        vstd::arithmetic::div_mod::lemma_fundamental_div_mod(v as int, pow2w(w));
    }
    lemma_shl_is_mul_u128(q, w);
    lemma_fundamental_div_mod_converse(v as int, pow2w(w), q as int, r as int);
}

/// Truncate `v` to width `w`: the canonical value congruent to `v`.
pub fn mask_to_width(v: u128, w: u32) -> (r: u128)
    requires
        1 <= w <= 128,
    ensures
        r as int == (v as int) % pow2w(w),
        in_width(r, w),
{
    proof {
        lemma_pow2_pos(w as nat);
    }
    if w == 128 {
        proof {
            lemma_pow2_128();
        }
        v
    } else {
        proof {
            lemma_shl1_is_pow2(w);
            lemma_mask_is_mod(v, w);
        }
        v & ((1u128 << w) - 1)
    }
}

/// A canonical value is unchanged by its own width mask.
proof fn lemma_mask_id(v: u128, w: u32)
    requires
        1 <= w <= 128,
        in_width(v, w),
    ensures
        v & ((pow2w(w) - 1) as u128) == v,
{
    lemma_pow2w_bounds(w);
    let m = (pow2w(w) - 1) as u128;
    if w == 128 {
        lemma_pow2_128();
        assert(v & m == v) by (bit_vector)
            requires
                m == u128::MAX,
        ;
    } else {
        lemma_shl1_is_pow2(w);
        assert(v & m == v) by (bit_vector)
            requires
                w < 128 && (m as int) + 1 == (1u128 << w) as int && v <= m,
        ;
    }
}

/// Bitwise complement within width `w`.
pub fn not_of(v: u128, w: u32) -> (r: u128)
    requires
        1 <= w <= 128,
        in_width(v, w),
    ensures
        r as int == not_val(v, w),
        in_width(r, w),
{
    let m = mask_of(w);
    proof {
        lemma_mask_id(v, w);
        assert((!v) & m == m - (v & m)) by (bit_vector)
            requires
                v <= m,
        ;
    }
    (!v) & m
}

/// Bitwise and; canonical operands give a canonical result.
pub fn and_of(a: u128, b: u128, w: u32) -> (r: u128)
    requires
        1 <= w <= 128,
        in_width(a, w),
        in_width(b, w),
    ensures
        r == a & b,
        in_width(r, w),
{
    proof {
        lemma_pow2_pos(w as nat);
        assert(a & b <= a) by (bit_vector);
    }
    a & b
}

/// Or and exclusive or of canonical operands stay canonical.
pub proof fn lemma_or_xor_bound(a: u128, b: u128, w: u32)
    requires
        1 <= w <= 128,
        in_width(a, w),
        in_width(b, w),
    ensures
        in_width(a | b, w),
        in_width(a ^ b, w),
{
    if w == 128 {
        lemma_pow2_128();
    } else {
        lemma_shl1_is_pow2(w);
        assert((a | b) < (1u128 << w) && (a ^ b) < (1u128 << w)) by (bit_vector)
            requires
                w < 128 && a < (1u128 << w) && b < (1u128 << w),
        ;
    }
}

/// Bitwise or; canonical operands give a canonical result.
pub fn or_of(a: u128, b: u128, w: u32) -> (r: u128)
    requires
        1 <= w <= 128,
        in_width(a, w),
        in_width(b, w),
    ensures
        r == a | b,
        in_width(r, w),
{
    proof {
        lemma_or_xor_bound(a, b, w);
    }
    a | b
}

/// Bitwise exclusive or; canonical operands give a canonical result.
pub fn xor_of(a: u128, b: u128, w: u32) -> (r: u128)
    requires
        1 <= w <= 128,
        in_width(a, w),
        in_width(b, w),
    ensures
        r == a ^ b,
        in_width(r, w),
{
    proof {
        lemma_or_xor_bound(a, b, w);
    }
    a ^ b
}

/// Addition, wrapping at the operand width.
pub fn add_of(a: u128, b: u128, w: u32) -> (r: u128)
    requires
        1 <= w <= 128,
        in_width(a, w),
        in_width(b, w),
    ensures
        r as int == add_val(a, b, w),
        in_width(r, w),
{
    proof {
        lemma_pow2_pos(w as nat);
    }
    if w == 128 {
        proof {
            lemma_pow2_128();
        }
        a.wrapping_add(b)
    } else {
        proof {
            lemma_shl1_is_pow2(w);
            assert(a + b <= u128::MAX) by {
                lemma_pow2_128();
                lemma_pow2w_le(w, 127);
                lemma_pow2_unfold(128);
            }
            lemma_mask_is_mod(((a + b) as int) as u128, w);
        }
        (a + b) & ((1u128 << w) - 1)
    }
}

/// Shifting right by `s` divides by `2^s`.
proof fn lemma_shr_is_div(v: u128, s: u32)
    requires
        s < 128,
    ensures
        (v >> s) as int == (v as int) / pow2w(s),
{
    lemma_u128_shr_is_div(v, s as u128);
    assert(v >> (s as u128) == v >> s) by (bit_vector)
        requires
            s < 128,
    ;
}

/// The single bit of `v` at index `i`, as 0 or 1.
pub fn bit_of(v: u128, i: u32) -> (r: u128)
    requires
        i < 128,
    ensures
        r as int == bits_val(v, i, i),
        r == 0 || r == 1,
{
    proof {
        lemma_shr_is_div(v, i);
        lemma_pow2_unfold(1);
        lemma2_to64();
        let x = v >> i;
        assert(x & 1 == x % 2) by (bit_vector);
    }
    (v >> i) & 1
}

/// The field of bits `hi` down to `lo` of `v`, shifted down to bit 0.
pub fn bits_of(v: u128, hi: u32, lo: u32) -> (r: u128)
    requires
        lo <= hi < 128,
    ensures
        r as int == bits_val(v, hi, lo),
        in_width(r, (hi - lo + 1) as u32),
{
    let shifted = v >> lo;
    proof {
        lemma_shr_is_div(v, lo);
        lemma_pow2_pos((hi - lo + 1) as nat);
    }
    if hi - lo + 1 == 128 {
        proof {
            lemma_pow2_128();
        }
        shifted
    } else {
        proof {
            lemma_shl1_is_pow2((hi - lo + 1) as u32);
            lemma_mask_is_mod(shifted, (hi - lo + 1) as u32);
        }
        shifted & ((1u128 << (hi - lo + 1)) - 1)
    }
}

/// The concatenation value is below `2^(hi_w + lo_w)`.
pub proof fn lemma_concat_val_bound(hi_v: u128, hi_w: u32, lo_v: u128, lo_w: u32)
    requires
        1 <= hi_w,
        1 <= lo_w,
        hi_w + lo_w <= 128,
        in_width(hi_v, hi_w),
        in_width(lo_v, lo_w),
    ensures
        0 <= concat_val(hi_v, lo_v, lo_w),
        concat_val(hi_v, lo_v, lo_w) < pow2w((hi_w + lo_w) as u32),
        (hi_v as int) * pow2w(lo_w) <= u128::MAX,
{
    lemma_pow2_pos(hi_w as nat);
    lemma_pow2_pos(lo_w as nat);
    lemma_pow2_adds(hi_w as nat, lo_w as nat);
    lemma_mul_inequality(hi_v as int, pow2w(hi_w) - 1, pow2w(lo_w));
    lemma_mul_is_distributive_sub(pow2w(lo_w), pow2w(hi_w), 1);
    assert(pow2w(lo_w) * pow2w(hi_w) == pow2w(hi_w) * pow2w(lo_w)) by (nonlinear_arith);
    assert(pow2w(lo_w) * (pow2w(hi_w) - 1) == (pow2w(hi_w) - 1) * pow2w(lo_w))
        by (nonlinear_arith);
    assert((hi_v as int) * pow2w(lo_w) >= 0) by (nonlinear_arith)
        requires
            hi_v >= 0,
            pow2w(lo_w) >= 1,
    ;
    lemma_pow2w_le((hi_w + lo_w) as u32, 128);
    lemma_pow2_128();
}

/// Concatenation: `hi_v` above the `lo_w`-bit value `lo_v`.
pub fn concat_of(hi_v: u128, hi_w: u32, lo_v: u128, lo_w: u32) -> (r: u128)
    requires
        1 <= hi_w,
        1 <= lo_w,
        hi_w + lo_w <= 128,
        in_width(hi_v, hi_w),
        in_width(lo_v, lo_w),
    ensures
        r as int == concat_val(hi_v, lo_v, lo_w),
        in_width(r, (hi_w + lo_w) as u32),
{
    proof {
        lemma_concat_val_bound(hi_v, hi_w, lo_v, lo_w);
        lemma_shl_is_mul_u128(hi_v, lo_w);
        lemma_shl1_is_pow2(lo_w);
        let h = hi_v << lo_w;
        assert((h | lo_v) as int == h + lo_v) by (bit_vector)
            requires
                0 < lo_w < 128 && h == hi_v << lo_w && lo_v < (1u128 << lo_w),
        ;
    }
    (hi_v << lo_w) | lo_v
}

/// `v` repeated `n` times; the product width must stay in range.
pub fn repeat_of(v: u128, w: u32, n: u32) -> (r: u128)
    requires
        1 <= w <= 128,
        in_width(v, w),
        1 <= n,
        w * n <= 128,
    ensures
        r as int == repeat_val(v, w, n),
        in_width(r, (w * n) as u32),
{
    let mut r: u128 = v;
    let mut k: u32 = 1;
    proof {
        lemma_pow2_pos(0);
        assert(repeat_val(v, w, 0) == 0);
        assert(repeat_val(v, w, 1) == 0 * pow2w(w) + v);
    }
    while k < n
        invariant
            1 <= k <= n,
            1 <= w <= 128,
            w * n <= 128,
            in_width(v, w),
            r as int == repeat_val(v, w, k),
            in_width(r, (w * k) as u32),
        decreases n - k,
    {
        proof {
            assert(w * (k + 1) <= w * n && w * k + w == w * (k + 1) && 1 <= w * k) by (
            nonlinear_arith)
                requires
                    1 <= k,
                    k + 1 <= n,
                    1 <= w,
            ;
        }
        r = concat_of(r, w * k, v, w);
        k = k + 1;
        proof {
            assert(repeat_val(v, w, k) == repeat_val(v, w, (k - 1) as u32) * pow2w(w) + v);
        }
    }
    r
}




/// A repetition of a canonical value is canonical for the product width.
pub proof fn lemma_repeat_val_bound(v: u128, w: u32, n: u32)
    requires
        1 <= w <= 128,
        in_width(v, w),
        w * n <= 128,
    ensures
        0 <= repeat_val(v, w, n),
        repeat_val(v, w, n) < pow2w((w * n) as u32),
    decreases n,
{
    lemma_pow2_pos(w as nat);
    if n == 0 {
        lemma_pow2_pos(0);
        assert(repeat_val(v, w, 0) == 0);
        assert(w * n == 0) by (nonlinear_arith)
            requires
                n == 0,
        ;
        assert((w * n) as u32 == 0u32);
        assert(pow2w(0u32) > 0);
    } else {
        assert(w * (n - 1) < w * n) by (nonlinear_arith)
            requires
                w >= 1,
                n >= 1,
        ;
        lemma_repeat_val_bound(v, w, (n - 1) as u32);
        lemma_pow2_adds((w * (n - 1)) as nat, w as nat);
        let p = pow2w((w * (n - 1)) as u32);
        let q = pow2w(w);
        assert(repeat_val(v, w, (n - 1) as u32) * q + v < p * q) by (nonlinear_arith)
            requires
                0 <= repeat_val(v, w, (n - 1) as u32) <= p - 1,
                0 <= (v as int) < q,
                q >= 1,
                p >= 1,
        ;
        assert(w * (n - 1) + w == w * n) by (nonlinear_arith);
        assert(pow2(((w * (n - 1)) + w) as nat) == pow2((w * (n - 1)) as nat) * pow2(w as nat));
        assert(p * q == pow2w((w * n) as u32));
        assert(repeat_val(v, w, n) == repeat_val(v, w, (n - 1) as u32) * q + v);
        assert(repeat_val(v, w, (n - 1) as u32) <= p - 1);
        assert(repeat_val(v, w, n) < p * q);
        assert(repeat_val(v, w, n) < pow2w((w * n) as u32));
    }
}

/// Flipping the top declared bit turns signed order into unsigned order.
proof fn lemma_xor_top_bit(v: u128, w: u32)
    requires
        1 <= w <= 128,
        in_width(v, w),
    ensures
        (v ^ (1u128 << ((w - 1) as u32))) as int == if (v as int) < pow2w((w - 1) as u32) {
            v as int + pow2w((w - 1) as u32)
        } else {
            v as int - pow2w((w - 1) as u32)
        },
{
    let s = (w - 1) as u32;
    lemma_shl1_is_pow2(s);
    lemma_pow2_unfold(w as nat);
    if w < 128 {
        lemma_shl1_is_pow2(w);
    } else {
        lemma_pow2_128();
    }
    let t = 1u128 << s;
    if s < 127 {
        assert(v >> s <= 1) by (bit_vector)
            requires
                s < 127 && s + 1 == w && v < (1u128 << w),
        ;
    } else {
        assert(v >> s <= 1) by (bit_vector)
            requires
                s == 127,
        ;
    }
    assert(v < t ==> (v ^ t) as int == v + t) by (bit_vector)
        requires
            s < 128 && t == 1u128 << s,
    ;
    assert(v >= t ==> (v ^ t) as int == v - t) by (bit_vector)
        requires
            s < 128 && t == 1u128 << s && v >> s <= 1,
    ;
}

/// Signed less-than at width `w`, as a 1-bit value.
pub fn lt_signed_of(a: u128, b: u128, w: u32) -> (r: u128)
    requires
        1 <= w <= 128,
        in_width(a, w),
        in_width(b, w),
    ensures
        r == (if as_signed(a, w) < as_signed(b, w) {
            1u128
        } else {
            0u128
        }),
{
    let t = 1u128 << (w - 1);
    proof {
        lemma_xor_top_bit(a, w);
        lemma_xor_top_bit(b, w);
    }
    if (a ^ t) < (b ^ t) {
        1
    } else {
        0
    }
}

/// Complementing twice within one width gives the value back.
pub proof fn lemma_not_not(v: u128, w: u32)
    requires
        1 <= w <= 128,
        in_width(v, w),
    ensures
        not_val((not_val(v, w)) as u128, w) == v as int,
{
    lemma_pow2w_bounds(w);
}

/// `a & a == a`, `a | a == a`, and `a ^ a == 0`.
pub proof fn lemma_bitwise_self(a: u128)
    ensures
        (a & a) == a,
        (a | a) == a,
        (a ^ a) == 0,
{
    assert((a & a) == a && (a | a) == a && (a ^ a) == 0) by (bit_vector);
}

/// Selecting bits is a shift right and a mask: the field of bits `hi` down
/// to `lo` of a constant `v` equals `(v >> lo) & ((1 << (hi - lo + 1)) - 1)`.
pub proof fn lemma_bits_shift_mask(v: u128, hi: u32, lo: u32)
    requires
        lo <= hi < 128,
        hi - lo + 1 < 128,
    ensures
        bits_val(v, hi, lo) == ((v >> lo) & (((1u128 << ((hi - lo + 1) as u32)) - 1) as u128)) as int,
{
    let w = (hi - lo + 1) as u32;
    lemma_shr_is_div(v, lo);
    lemma_mask_is_mod(v >> lo, w);
}

/// The upper field of a concatenation is the upper operand, and the lower
/// field is the lower operand.
pub proof fn lemma_concat_bits(hi_v: u128, hi_w: u32, lo_v: u128, lo_w: u32)
    requires
        1 <= hi_w,
        1 <= lo_w,
        hi_w + lo_w <= 128,
        in_width(hi_v, hi_w),
        in_width(lo_v, lo_w),
    ensures
        bits_val((concat_val(hi_v, lo_v, lo_w)) as u128, (hi_w + lo_w - 1) as u32, lo_w) == hi_v
            as int,
        bits_val((concat_val(hi_v, lo_v, lo_w)) as u128, (lo_w - 1) as u32, 0) == lo_v as int,
{
    lemma_pow2_pos(hi_w as nat);
    lemma_pow2_pos(lo_w as nat);
    lemma_concat_val_bound(hi_v, hi_w, lo_v, lo_w);
    lemma_pow2w_le((hi_w + lo_w) as u32, 128);
    lemma_pow2_128();
    let c = concat_val(hi_v, lo_v, lo_w);
    assert((c as u128) as int == c);
    assert(c / pow2w(lo_w) == hi_v as int && c % pow2w(lo_w) == lo_v as int) by {
        lemma_fundamental_div_mod_converse(c, pow2w(lo_w), hi_v as int, lo_v as int);
    }
    assert((hi_v as int) % pow2w(hi_w) == hi_v as int) by {
        vstd::arithmetic::div_mod::lemma_small_mod(hi_v as nat, pow2w(hi_w) as nat);
    }
    assert(pow2w(0) == 1) by {
        lemma2_to64();
    }
    assert((c / 1) % pow2w(lo_w) == lo_v as int);
}

} // verus!
