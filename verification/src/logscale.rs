use vstd::prelude::*;

use vstd::arithmetic::power2::{
    pow2, lemma2_to64, lemma2_to64_rest, lemma_pow2_adds, lemma_pow2_pos,
    lemma_pow2_strictly_increases, lemma_pow2_unfold,
};

verus! {

// A brightness scale with `num_steps` discrete levels spanning `[1, max]` is
// logarithmic: level `s` sits near `max ^ (s / num_steps)`.  All arithmetic
// here is integer arithmetic: `log2_fp` computes a base-two logarithm with 32
// fraction bits by the classic digit-by-digit squaring method, and
// `brightness_at` places level `s` at the largest `r` with
// `num_steps * log2(r) <= s * log2(max)` under that logarithm.  The rounding
// of the logarithm is pinned by its definition here, and every property the
// stepper rests on — monotonicity, the endpoints `1` and `max` — is proved of
// it, so no property depends on how close the approximation comes.

/// Floor of the base-two logarithm of `x`.
pub open spec fn ilog2(x: int) -> int
    recommends
        x >= 1,
    decreases x,
{
    if x >= 2 {
        1 + ilog2(x / 2)
    } else {
        0
    }
}

/// A mantissa is kept normalized to the half-open interval `[2^62, 2^63)`,
/// standing for a real value in `[1, 2)` scaled by `2^62`.
pub open spec fn mantissa_in_range(m: int) -> bool {
    0x4000000000000000 <= m < 0x8000000000000000
}

/// `x` scaled so that its leading binary digit sits at position 62.
pub open spec fn normalized(x: int) -> int
    recommends
        1 <= x < 0x10000000000000000,
{
    if ilog2(x) <= 62 {
        x * pow2((62 - ilog2(x)) as nat)
    } else {
        x / 2
    }
}

/// One squaring step of the digit-by-digit logarithm: the next mantissa.
pub open spec fn mantissa_step(m: int) -> int {
    let t = (m * m) / 0x4000000000000000;
    if t >= 0x8000000000000000 {
        t / 2
    } else {
        t
    }
}

/// One squaring step of the digit-by-digit logarithm: the bit produced.
pub open spec fn bit_step(m: int) -> int {
    let t = (m * m) / 0x4000000000000000;
    if t >= 0x8000000000000000 {
        1
    } else {
        0
    }
}

/// The mantissa after `j` squaring steps from `m`.
pub open spec fn mantissa_after(m: int, j: nat) -> int
    decreases j,
{
    if j == 0 {
        m
    } else {
        mantissa_after(mantissa_step(m), (j - 1) as nat)
    }
}

/// The `j` fraction bits that the squaring method produces from mantissa `m`,
/// read as an integer, most significant bit first.
pub open spec fn frac_bits(m: int, j: nat) -> int
    decreases j,
{
    if j == 0 {
        0
    } else {
        bit_step(m) * pow2((j - 1) as nat) + frac_bits(mantissa_step(m), (j - 1) as nat)
    }
}

/// The fixed-point base-two logarithm of `x`: integer part in the high bits,
/// 32 fraction bits in the low bits.
pub open spec fn log2_fixed(x: int) -> int
    recommends
        1 <= x < 0x10000000000000000,
{
    ilog2(x) * 0x100000000 + frac_bits(normalized(x), 32)
}

pub proof fn lemma_ilog2_nonneg(x: int)
    ensures
        ilog2(x) >= 0,
    decreases x,
{
    if x >= 2 {
        lemma_ilog2_nonneg(x / 2);
    }
}

pub proof fn lemma_ilog2_bounds(x: int)
    requires
        x >= 1,
    ensures
        ilog2(x) >= 0,
        pow2(ilog2(x) as nat) <= x < pow2((ilog2(x) + 1) as nat),
    decreases x,
{
    lemma_ilog2_nonneg(x);
    if x >= 2 {
        lemma_ilog2_bounds(x / 2);
        let k = ilog2(x / 2);
        assert(pow2((k + 1) as nat) == 2 * pow2(k as nat)) by {
            lemma_pow2_unfold((k + 1) as nat);
        }
        assert(pow2((k + 2) as nat) == 2 * pow2((k + 1) as nat)) by {
            lemma_pow2_unfold((k + 2) as nat);
        }
    } else {
        assert(pow2(0) == 1 && pow2(1) == 2) by {
            lemma2_to64();
        }
    }
}

pub proof fn lemma_ilog2_mono(x1: int, x2: int)
    requires
        1 <= x1 <= x2,
    ensures
        ilog2(x1) <= ilog2(x2),
    decreases x2,
{
    if x1 >= 2 {
        lemma_ilog2_mono(x1 / 2, x2 / 2);
    } else {
        lemma_ilog2_nonneg(x2);
    }
}

/// For a 64-bit `x`, the integer part of the logarithm is at most 63.
pub proof fn lemma_ilog2_le_63(x: int)
    requires
        1 <= x < 0x10000000000000000,
    ensures
        0 <= ilog2(x) <= 63,
{
    lemma_ilog2_bounds(x);
    if ilog2(x) > 63 {
        lemma2_to64_rest();
        if ilog2(x) > 64 {
            lemma_pow2_strictly_increases(64, ilog2(x) as nat);
        }
        assert(false);
    }
}

pub proof fn lemma_mantissa_step_range(m: int)
    requires
        mantissa_in_range(m),
    ensures
        mantissa_in_range(mantissa_step(m)),
        bit_step(m) == 0 || bit_step(m) == 1,
{
    let t = (m * m) / 0x4000000000000000;
    assert(m * m >= 0x4000000000000000 * 0x4000000000000000) by (nonlinear_arith)
        requires
            m >= 0x4000000000000000,
    ;
    assert(m * m < 0x8000000000000000 * 0x8000000000000000) by (nonlinear_arith)
        requires
            0 <= m < 0x8000000000000000,
    ;
    assert(t >= 0x4000000000000000);
    assert(t < 0x10000000000000000);
}

/// The fraction bits are a `j`-bit value.
pub proof fn lemma_frac_bits_bound(m: int, j: nat)
    ensures
        0 <= frac_bits(m, j) < pow2(j),
    decreases j,
{
    lemma_pow2_pos(j);
    if j > 0 {
        lemma_frac_bits_bound(mantissa_step(m), (j - 1) as nat);
        lemma_pow2_unfold(j);
    }
}

/// Larger mantissas give fraction bits at least as large; on equal bits the
/// final mantissas stay ordered.
pub proof fn lemma_frac_bits_mono(m1: int, m2: int, j: nat)
    requires
        0 <= m1 <= m2,
    ensures
        frac_bits(m1, j) < frac_bits(m2, j) || (frac_bits(m1, j) == frac_bits(m2, j)
            && mantissa_after(m1, j) <= mantissa_after(m2, j)),
    decreases j,
{
    if j > 0 {
        assert(0 <= m1 * m1 <= m2 * m2) by (nonlinear_arith)
            requires
                0 <= m1 <= m2,
        ;
        let t1 = (m1 * m1) / 0x4000000000000000;
        let t2 = (m2 * m2) / 0x4000000000000000;
        assert(0 <= t1 <= t2);
        if bit_step(m1) == bit_step(m2) {
            assert(0 <= mantissa_step(m1) <= mantissa_step(m2));
            lemma_frac_bits_mono(mantissa_step(m1), mantissa_step(m2), (j - 1) as nat);
        } else {
            assert(bit_step(m1) == 0 && bit_step(m2) == 1);
            lemma_frac_bits_bound(mantissa_step(m1), (j - 1) as nat);
            lemma_frac_bits_bound(mantissa_step(m2), (j - 1) as nat);
        }
    }
}

/// An exact power of two has a mantissa of exactly one, whose fraction bits
/// are all zero.
pub proof fn lemma_frac_bits_of_one(j: nat)
    ensures
        frac_bits(0x4000000000000000, j) == 0,
        mantissa_after(0x4000000000000000, j) == 0x4000000000000000,
    decreases j,
{
    if j > 0 {
        assert(0x4000000000000000 * 0x4000000000000000 / 0x4000000000000000
            == 0x4000000000000000);
        lemma_frac_bits_of_one((j - 1) as nat);
    }
}

/// A normalized 64-bit value is a mantissa in range.
pub proof fn lemma_normalized_range(x: int)
    requires
        1 <= x < 0x10000000000000000,
    ensures
        mantissa_in_range(normalized(x)),
{
    lemma_ilog2_bounds(x);
    lemma_ilog2_le_63(x);
    let k = ilog2(x);
    if k <= 62 {
        let c = pow2((62 - k) as nat);
        lemma_pow2_pos((62 - k) as nat);
        lemma_pow2_adds(k as nat, (62 - k) as nat);
        lemma_pow2_adds((k + 1) as nat, (62 - k) as nat);
        lemma2_to64_rest();
        assert(x * c >= pow2(k as nat) * c) by (nonlinear_arith)
            requires
                x >= pow2(k as nat),
                c >= 1,
        ;
        assert(x * c < pow2((k + 1) as nat) * c) by (nonlinear_arith)
            requires
                x < pow2((k + 1) as nat),
                c >= 1,
        ;
        assert(pow2(k as nat) * c == pow2(62));
        assert(pow2((k + 1) as nat) * c == pow2(63));
    } else {
        lemma2_to64_rest();
        assert(pow2(63) <= x);
    }
}

/// The fixed-point logarithm is monotone.
pub proof fn lemma_log2_fixed_mono(x1: int, x2: int)
    requires
        1 <= x1 <= x2 < 0x10000000000000000,
    ensures
        log2_fixed(x1) <= log2_fixed(x2),
{
    lemma_ilog2_mono(x1, x2);
    lemma_ilog2_le_63(x1);
    lemma_ilog2_le_63(x2);
    let k1 = ilog2(x1);
    let k2 = ilog2(x2);
    lemma_frac_bits_bound(normalized(x1), 32);
    lemma_frac_bits_bound(normalized(x2), 32);
    lemma2_to64();
    if k1 == k2 {
        if k1 <= 62 {
            let c = pow2((62 - k1) as nat);
            lemma_pow2_pos((62 - k1) as nat);
            assert(x1 * c <= x2 * c) by (nonlinear_arith)
                requires
                    x1 <= x2,
                    c >= 0,
            ;
        }
        assert(normalized(x1) <= normalized(x2));
        lemma_normalized_range(x1);
        lemma_frac_bits_mono(normalized(x1), normalized(x2), 32);
    }
}

/// The fixed-point logarithm of one is zero, and of anything at least two is
/// at least one whole fraction unit.
pub proof fn lemma_log2_fixed_ends(x: int)
    requires
        1 <= x < 0x10000000000000000,
    ensures
        x == 1 ==> log2_fixed(x) == 0,
        x >= 2 ==> log2_fixed(x) >= 0x100000000,
        0 <= log2_fixed(x) < 0x4000000000,
{
    lemma_ilog2_le_63(x);
    lemma_frac_bits_bound(normalized(x), 32);
    lemma2_to64();
    if x == 1 {
        assert(ilog2(1) == 0);
        assert(normalized(1) == pow2(62));
        lemma2_to64_rest();
        lemma_frac_bits_of_one(32);
    }
    if x >= 2 {
        assert(ilog2(x) >= 1) by {
            lemma_ilog2_nonneg(x / 2);
        }
    }
}

/// Appending one squaring to `j` squarings steps the final mantissa once.
pub proof fn lemma_mantissa_after_snoc(m: int, j: nat)
    ensures
        mantissa_after(m, j + 1) == mantissa_step(mantissa_after(m, j)),
    decreases j,
{
    assert(mantissa_after(m, j + 1) == mantissa_after(mantissa_step(m), j));
    if j > 0 {
        lemma_mantissa_after_snoc(mantissa_step(m), (j - 1) as nat);
    } else {
        assert(mantissa_after(mantissa_step(m), 0) == mantissa_step(m));
        assert(mantissa_after(m, 0) == m);
    }
}

/// The fixed-point base-two logarithm of `x`, with 32 fraction bits, by the
/// digit-by-digit squaring method.
#[verifier::loop_isolation(false)]
pub fn log2_fp(x: u64) -> (r: u64)
    requires
        x >= 1,
    ensures
        r == log2_fixed(x as int),
{
    proof {
        lemma_ilog2_le_63(x as int);
        lemma_ilog2_bounds(x as int);
        lemma2_to64();
        lemma2_to64_rest();
    }
    // Integer part: the position of the leading binary digit.
    let mut k: u64 = 0;
    let mut t: u64 = x;
    while t >= 2
        invariant
            1 <= t,
            ilog2(x as int) == k + ilog2(t as int),
            k <= ilog2(x as int),
        decreases t,
    {
        proof {
            lemma_ilog2_nonneg(t as int / 2);
        }
        t = t / 2;
        k = k + 1;
    }
    assert(k == ilog2(x as int));

    // Normalize the mantissa into [2^62, 2^63).
    let mut m: u64;
    if k <= 62 {
        m = x;
        let mut j: u64 = k;
        assert(pow2((j - k) as nat) == 1) by {
            lemma2_to64();
        }
        assert(m == x * pow2((j - k) as nat));
        assert(m < pow2((j + 1) as nat));
        while j < 62
            invariant
                k <= j <= 62,
                k == ilog2(x as int),
                1 <= x < 0x10000000000000000,
                m == x * pow2((j - k) as nat),
                m < pow2((j + 1) as nat),
            decreases 62 - j,
        {
            proof {
                lemma_pow2_unfold((j + 1 - k) as nat);
                lemma_pow2_unfold((j + 2) as nat);
                lemma_pow2_strictly_increases((j + 2) as nat, 64);
                assert(x * (2 * pow2((j - k) as nat)) == 2 * (x * pow2((j - k) as nat)))
                    by (nonlinear_arith);
            }
            m = m * 2;
            j = j + 1;
        }
        assert(m == normalized(x as int));
    } else {
        m = x / 2;
        assert(m == normalized(x as int));
    }
    proof {
        lemma_normalized_range(x as int);
    }

    // Fraction bits, one per squaring.
    let ghost m0 = m as int;
    let mut frac: u64 = 0;
    let mut i: u64 = 0;
    while i < 32
        invariant
            0 <= i <= 32,
            mantissa_in_range(m as int),
            m == mantissa_after(m0, i as nat),
            0 <= frac < pow2(i as nat),
            frac * pow2((32 - i) as nat) + frac_bits(m as int, (32 - i) as nat) == frac_bits(
                m0,
                32,
            ),
        decreases 32 - i,
    {
        let ghost m_old = m as int;
        let ghost frac_old = frac as int;
        let ghost i_old = i as int;
        proof {
            lemma_mantissa_step_range(m_old);
            lemma_pow2_unfold((32 - i) as nat);
            lemma_pow2_unfold((i + 1) as nat);
            lemma_pow2_strictly_increases(i as nat, 32);
            lemma_mantissa_after_snoc(m0, i as nat);
            assert((m as u128) * (m as u128) < 0x8000000000000000u128 * 0x8000000000000000u128)
                by (nonlinear_arith)
                requires
                    0 <= (m as u128) < 0x8000000000000000u128,
            ;
        }
        let sq: u128 = (m as u128) * (m as u128);
        let tq: u128 = sq / 0x4000000000000000u128;
        if tq >= 0x8000000000000000u128 {
            m = (tq / 2) as u64;
            frac = frac * 2 + 1;
        } else {
            m = tq as u64;
            frac = frac * 2;
        }
        i = i + 1;
        proof {
            let b = bit_step(m_old);
            assert(m as int == mantissa_step(m_old));
            assert(frac == 2 * frac_old + b);
            assert(frac_bits(m_old, (32 - i_old) as nat) == b * pow2((31 - i_old) as nat)
                + frac_bits(mantissa_step(m_old), (31 - i_old) as nat));
            assert((2 * frac_old + b) * pow2((31 - i_old) as nat) == frac_old * (2 * pow2(
                (31 - i_old) as nat,
            )) + b * pow2((31 - i_old) as nat)) by (nonlinear_arith);
        }
    }
    proof {
        lemma_frac_bits_bound(m0, 32);
        lemma2_to64();
        assert(frac_bits(m as int, 0) == 0);
        assert(frac * pow2(0) == frac);
        assert(frac == frac_bits(m0, 32));
    }
    k * 0x100000000 + frac
}

/// Brightness `r` sits at or below step `s` of the scale when
/// `r ^ num_steps <= max ^ s`, compared through the fixed-point logarithm.
pub open spec fn level_le(max: int, num_steps: int, s: int, r: int) -> bool {
    num_steps * log2_fixed(r) <= s * log2_fixed(max)
}

/// The largest brightness in `[1, r]` at or below step `s`, by downward search.
pub open spec fn brightness_rec(max: int, num_steps: int, s: int, r: int) -> int
    decreases r,
{
    if r <= 1 {
        1
    } else if level_le(max, num_steps, s, r) {
        r
    } else {
        brightness_rec(max, num_steps, s, r - 1)
    }
}

/// The brightness of step `s` on the logarithmic scale: the largest
/// brightness in `[1, max]` with `r ^ num_steps <= max ^ s`.
pub open spec fn brightness_level(max: int, num_steps: int, s: int) -> int {
    brightness_rec(max, num_steps, s, max)
}

/// What the downward search returns: a brightness in `[1, r]` at or below
/// step `s`, with everything above it in `(.., r]` strictly above step `s`.
pub proof fn lemma_brightness_rec_char(max: int, num_steps: int, s: int, r: int)
    requires
        1 <= max < 0x10000000000000000,
        1 <= num_steps,
        0 <= s,
        1 <= r <= max,
    ensures
        1 <= brightness_rec(max, num_steps, s, r) <= r,
        level_le(max, num_steps, s, brightness_rec(max, num_steps, s, r)),
        forall|r2: int|
            brightness_rec(max, num_steps, s, r) < r2 <= r ==> !level_le(max, num_steps, s, r2),
    decreases r,
{
    lemma_log2_fixed_ends(max);
    lemma_log2_fixed_ends(1);
    assert(num_steps * log2_fixed(1) <= s * log2_fixed(max)) by (nonlinear_arith)
        requires
            log2_fixed(1) == 0,
            s >= 0,
            log2_fixed(max) >= 0,
    ;
    if r > 1 && !level_le(max, num_steps, s, r) {
        lemma_brightness_rec_char(max, num_steps, s, r - 1);
    }
}

/// The scale is monotone in the step index.
pub proof fn lemma_brightness_level_mono(max: int, num_steps: int, s1: int, s2: int)
    requires
        1 <= max < 0x10000000000000000,
        1 <= num_steps,
        0 <= s1 <= s2,
    ensures
        brightness_level(max, num_steps, s1) <= brightness_level(max, num_steps, s2),
{
    let b1 = brightness_level(max, num_steps, s1);
    let b2 = brightness_level(max, num_steps, s2);
    lemma_brightness_rec_char(max, num_steps, s1, max);
    lemma_brightness_rec_char(max, num_steps, s2, max);
    lemma_log2_fixed_ends(max);
    assert(s1 * log2_fixed(max) <= s2 * log2_fixed(max)) by (nonlinear_arith)
        requires
            s1 <= s2,
            log2_fixed(max) >= 0,
    ;
    assert(level_le(max, num_steps, s2, b1));
}

/// Step zero of the scale is brightness one.
pub proof fn lemma_brightness_level_zero(max: int, num_steps: int)
    requires
        1 <= max < 0x10000000000000000,
        1 <= num_steps,
    ensures
        brightness_level(max, num_steps, 0) == 1,
{
    let b = brightness_level(max, num_steps, 0);
    lemma_brightness_rec_char(max, num_steps, 0, max);
    if b >= 2 {
        lemma_log2_fixed_ends(b);
        lemma_log2_fixed_ends(max);
        assert(num_steps * log2_fixed(b) >= log2_fixed(b)) by (nonlinear_arith)
            requires
                num_steps >= 1,
                log2_fixed(b) >= 0,
        ;
        assert(!level_le(max, num_steps, 0, b));
        assert(false);
    }
}

/// The last step of the scale is brightness `max`.
pub proof fn lemma_brightness_level_full(max: int, num_steps: int)
    requires
        1 <= max < 0x10000000000000000,
        1 <= num_steps,
    ensures
        brightness_level(max, num_steps, num_steps) == max,
{
    assert(level_le(max, num_steps, num_steps, max));
}

/// The brightness of step `s`, found by binary search through the
/// fixed-point logarithm.
#[verifier::loop_isolation(false)]
pub fn brightness_at(max: u64, num_steps: u64, s: u64) -> (r: u64)
    requires
        1 <= max,
        1 <= num_steps,
        s <= num_steps,
    ensures
        r == brightness_level(max as int, num_steps as int, s as int),
        1 <= r <= max,
{
    let lmax = log2_fp(max);
    proof {
        lemma_log2_fixed_ends(max as int);
        lemma_log2_fixed_ends(1);
        assert((s as int) * (lmax as int) < 0x40000000000000000000000000)
            by (nonlinear_arith)
            requires
                0 <= s < 0x10000000000000000,
                0 <= lmax < 0x4000000000,
        ;
        assert(num_steps * log2_fixed(1) <= s * log2_fixed(max as int)) by (nonlinear_arith)
            requires
                log2_fixed(1) == 0,
                s >= 0,
                log2_fixed(max as int) >= 0,
        ;
    }
    let target: u128 = (s as u128) * (lmax as u128);
    let mut lo: u64 = 1;
    let mut hi: u64 = max;
    while lo < hi
        invariant
            1 <= lo <= hi <= max,
            level_le(max as int, num_steps as int, s as int, lo as int),
            forall|r2: int|
                hi < r2 <= max ==> !level_le(max as int, num_steps as int, s as int, r2),
        decreases hi - lo,
    {
        let mid = lo + (hi - lo + 1) / 2;
        let lm = log2_fp(mid);
        proof {
            lemma_log2_fixed_ends(mid as int);
            assert((num_steps as int) * (lm as int) < 0x40000000000000000000000000)
                by (nonlinear_arith)
                requires
                    0 <= num_steps < 0x10000000000000000,
                    0 <= lm < 0x4000000000,
            ;
        }
        if (num_steps as u128) * (lm as u128) <= target {
            lo = mid;
        } else {
            proof {
                assert forall|r2: int| mid <= r2 <= max implies !level_le(
                    max as int,
                    num_steps as int,
                    s as int,
                    r2,
                ) by {
                    lemma_log2_fixed_mono(mid as int, r2);
                    assert((num_steps as int) * log2_fixed(mid as int) <= (num_steps as int)
                        * log2_fixed(r2)) by (nonlinear_arith)
                        requires
                            num_steps as int >= 0,
                            log2_fixed(mid as int) <= log2_fixed(r2),
                    ;
                }
            }
            hi = mid - 1;
        }
    }
    proof {
        lemma_brightness_rec_char(max as int, num_steps as int, s as int, max as int);
        let b = brightness_level(max as int, num_steps as int, s as int);
        if b < lo {
            assert(!level_le(max as int, num_steps as int, s as int, lo as int));
        }
        if lo < b {
            assert(!level_le(max as int, num_steps as int, s as int, b));
        }
    }
    lo
}

} // verus!
