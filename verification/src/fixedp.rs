//! Fixed-point arithmetic helpers.
//!
//! Heights and brush weights are stored as 32-bit integers scaled by
//! `HEIGHT_SCALE` (1,000,000 per unit). This module provides the verified
//! integer square root used by the brush builder and the fixed-point
//! base-two logarithm used by the continent height formula.

use vstd::prelude::*;

verus! {

/// Power of two, as a spec-level natural number.
pub open spec fn p2(i: nat) -> nat
    decreases i,
{
    if i == 0 {
        1
    } else {
        2 * p2((i - 1) as nat)
    }
}

/// Floor of the base-two logarithm of `v`, for `v >= 1`.
pub open spec fn floor_log2(v: nat) -> nat
    decreases v,
{
    if v < 2 {
        0
    } else {
        1 + floor_log2(v / 2)
    }
}

/// `p2(floor_log2(v)) <= v < 2 * p2(floor_log2(v))` for `v >= 1`.
pub proof fn lemma_floor_log2_bounds(v: nat)
    requires
        v >= 1,
    ensures
        p2(floor_log2(v)) <= v,
        v < 2 * p2(floor_log2(v)),
    decreases v,
{
    if v < 2 {
    } else {
        lemma_floor_log2_bounds(v / 2);
    }
}

pub proof fn lemma_p2_pos(i: nat)
    ensures
        p2(i) >= 1,
    decreases i,
{
    if i > 0 {
        lemma_p2_pos((i - 1) as nat);
    }
}

pub proof fn lemma_p2_add(a: nat, b: nat)
    ensures
        p2(a + b) == p2(a) * p2(b),
    decreases a,
{
    if a == 0 {
        assert(p2(0) == 1);
        assert(1 * p2(b) == p2(b)) by (nonlinear_arith);
    } else {
        lemma_p2_add((a - 1) as nat, b);
        assert(p2(a + b) == 2 * p2((a + b - 1) as nat));
        assert((a + b - 1) as nat == (a - 1) as nat + b);
        assert(p2(a) == 2 * p2((a - 1) as nat));
        assert(2 * (p2((a - 1) as nat) * p2(b)) == (2 * p2((a - 1) as nat)) * p2(b))
            by (nonlinear_arith);
        assert(p2(a + b) == (2 * p2((a - 1) as nat)) * p2(b));
        assert((2 * p2((a - 1) as nat)) * p2(b) == p2(a) * p2(b));
    }
}

/// Integer square root: the unique `r` with `r * r <= n < (r + 1) * (r + 1)`.
pub fn isqrt(n: u64) -> (r: u64)
    ensures
        r * r <= n,
        n < (r + 1) * (r + 1),
{
    let mut lo: u64 = 0;
    let mut hi: u64 = 0x1_0000_0000;
    // Invariant: lo * lo <= n < hi * hi, lo < hi.
    while lo + 1 < hi
        invariant
            lo < hi <= 0x1_0000_0000,
            lo * lo <= n,
            (n as u128) < (hi as u128) * (hi as u128),
        decreases hi - lo,
    {
        let mid: u64 = lo + (hi - lo) / 2;
        proof {
            assert((mid as int) * (mid as int) <= 0x1_0000_0000 * 0x1_0000_0000)
                by (nonlinear_arith)
                requires
                    0 <= mid <= 0x1_0000_0000,
            ;
        }
        let sq: u128 = (mid as u128) * (mid as u128);
        if sq <= n as u128 {
            lo = mid;
        } else {
            hi = mid;
        }
    }
    proof {
        assert((n as u128) < ((lo + 1) as u128) * ((lo + 1) as u128));
        assert((lo + 1) * (lo + 1) == ((lo + 1) as u128) * ((lo + 1) as u128));
    }
    lo
}

/// The fractional bits of a base-two logarithm, most significant first.
///
/// `m` is a mantissa in `[2^32, 2^33)` standing for a real in `[1, 2)`;
/// the result packs `i` further bits of `log2(m / 2^32)` into an integer.
pub open spec fn log2_frac(m: nat, i: nat) -> nat
    decreases i,
{
    if i == 0 {
        0
    } else {
        let m2 = (m * m) / 0x1_0000_0000;
        if m2 >= 0x2_0000_0000 {
            p2((i - 1) as nat) + log2_frac(m2 / 2, (i - 1) as nat)
        } else {
            log2_frac(m2, (i - 1) as nat)
        }
    }
}

pub proof fn lemma_log2_frac_bound(m: nat, i: nat)
    ensures
        log2_frac(m, i) < p2(i),
    decreases i,
{
    if i == 0 {
    } else {
        let m2 = (m * m) / 0x1_0000_0000;
        if m2 >= 0x2_0000_0000 {
            lemma_log2_frac_bound(m2 / 2, (i - 1) as nat);
        } else {
            lemma_log2_frac_bound(m2, (i - 1) as nat);
        }
    }
}

/// Number of fractional bits carried by the fixed-point logarithm.
pub open spec fn frac_bits() -> nat {
    20
}

/// The mantissa of `v` normalized to `[2^32, 2^33)`.
pub open spec fn mantissa(v: nat) -> nat {
    v * p2((32 - floor_log2(v)) as nat)
}

/// Fixed-point base-two logarithm of `v >= 1`, scaled by `HEIGHT_SCALE`:
/// the binary fixed-point value `floor_log2(v).log2_frac` (20 fractional
/// bits) rescaled from units of `2^-20` to units of `10^-6`.
pub open spec fn spec_log2_fixed(v: nat) -> nat {
    (floor_log2(v) * 0x10_0000 + log2_frac(mantissa(v), frac_bits())) * 1_000_000 / 0x10_0000
}

/// Fixed-point base-two logarithm, `v >= 1`, result scaled by `HEIGHT_SCALE`.
///
/// Exact powers of two come out exact: `log2_fixed(1) == 0`,
/// `log2_fixed(2) == HEIGHT_SCALE`.
pub fn log2_fixed(v: u32) -> (r: u32)
    requires
        v >= 1,
    ensures
        r == spec_log2_fixed(v as nat),
        r <= 32_000_000,
{
    // Integer part: k = floor(log2(v)).
    let mut k: u32 = 0;
    let mut t: u32 = v;
    proof {
        assert(p2(0) == 1);
        assert(p2(0) * (v as nat) == v as nat);
    }
    while t >= 2
        invariant
            t >= 1,
            k <= 31,
            v < 0x1_0000_0000,
            floor_log2(v as nat) == k + floor_log2(t as nat),
            p2(k as nat) * (t as nat) <= v as nat,
        decreases t,
    {
        proof {
            let kn = k as nat;
            let tn = t as nat;
            assert(p2(kn + 1) == 2 * p2(kn));
            assert(2 * p2(kn) * (tn / 2) <= p2(kn) * tn) by (nonlinear_arith)
                requires
                    tn >= 2,
                    p2(kn) >= 0,
            ;
            lemma_p2_pos(kn);
            assert(p2(kn + 1) <= p2(kn + 1) * (tn / 2)) by (nonlinear_arith)
                requires
                    tn / 2 >= 1,
                    p2(kn + 1) >= 0,
            ;
            lemma_p2_mono_bound(kn + 1);
        }
        t = t / 2;
        k = k + 1;
    }
    assert(floor_log2(v as nat) == k);
    proof {
        lemma_floor_log2_bounds(v as nat);
        assert(p2(k as nat) <= v < 2 * p2(k as nat));
    }

    // Normalize the mantissa to [2^32, 2^33).
    let mut m: u64 = v as u64;
    let mut i: u32 = k;
    proof {
        assert(p2(0) == 1);
        assert((v as nat) * p2(0) == v as nat);
        assert(p2((k + 1) as nat) == 2 * p2(k as nat));
    }
    while i < 32
        invariant
            i <= 32,
            k <= i,
            k <= 31,
            m == (v as nat) * p2((i - k) as nat),
            m < p2((i + 1) as nat),
            p2(k as nat) <= v < 2 * p2(k as nat),
            floor_log2(v as nat) == k,
        decreases 32 - i,
    {
        proof {
            let vn = v as nat;
            let d = (i - k) as nat;
            assert(p2(d + 1) == 2 * p2(d));
            assert(2 * (vn * p2(d)) == vn * (2 * p2(d))) by (nonlinear_arith);
            lemma_p2_pos(d);
            assert(vn * p2(d + 1) < (2 * p2(k as nat)) * p2(d + 1)) by (nonlinear_arith)
                requires
                    vn < 2 * p2(k as nat),
                    p2(d + 1) >= 1,
            ;
            assert((2 * p2(k as nat)) * p2(d + 1) == 2 * (p2(k as nat) * p2(d + 1)))
                by (nonlinear_arith);
            lemma_p2_add(k as nat, d + 1);
            assert(k as nat + (d + 1) == (i + 1) as nat);
            assert(p2((i + 2) as nat) == 2 * p2((i + 1) as nat));
            lemma_p2_mono((i + 2) as nat, 33);
            lemma_p2_values_33();
        }
        m = m * 2;
        i = i + 1;
    }
    proof {
        lemma_p2_add(k as nat, (32 - k) as nat);
        lemma_mantissa_range(v as nat, k as nat);
        assert(m == mantissa(v as nat));
    }

    // Fractional bits, most significant first.
    let ghost m0: nat = m as nat;
    let mut frac: u64 = 0;
    let mut j: u32 = 0;
    while j < 20
        invariant
            j <= 20,
            0x1_0000_0000 <= m < 0x2_0000_0000,
            frac < p2(j as nat),
            log2_frac(m0, frac_bits()) == (frac as nat) * p2((20 - j) as nat) + log2_frac(
                m as nat,
                (20 - j) as nat,
            ),
        decreases 20 - j,
    {
        proof {
            lemma_square_range(m as nat);
            lemma_p2_mono(j as nat, 20);
            lemma_p2_values();
            let fr = frac as nat;
            let rem = (20 - j) as nat;
            let mn = m as nat;
            let m2s = (mn * mn) / 0x1_0000_0000;
            assert(rem >= 1);
            assert(p2(rem) == 2 * p2((rem - 1) as nat));
            assert(fr * (2 * p2((rem - 1) as nat)) == (2 * fr) * p2((rem - 1) as nat))
                by (nonlinear_arith);
            assert((2 * fr + 1) * p2((rem - 1) as nat) == (2 * fr) * p2((rem - 1) as nat) + p2(
                (rem - 1) as nat,
            )) by (nonlinear_arith);
        }
        let sq: u128 = (m as u128) * (m as u128);
        let m2: u64 = (sq / 0x1_0000_0000) as u64;
        proof {
            assert(m2 as nat == ((m as nat) * (m as nat)) / 0x1_0000_0000);
        }
        if m2 >= 0x2_0000_0000 {
            frac = frac * 2 + 1;
            m = m2 / 2;
        } else {
            frac = frac * 2;
            m = m2;
        }
        j = j + 1;
    }
    proof {
        assert(p2(0) == 1);
        assert((frac as nat) * 1 == frac as nat);
        assert(log2_frac(m0, frac_bits()) == frac);
        lemma_log2_frac_bound(m0, frac_bits());
        lemma_p2_values();
    }

    // Rescale from binary (2^-20) to decimal (10^-6) fixed point.
    let packed: u64 = (k as u64) * 0x10_0000 + frac;
    let r64: u64 = packed * 1_000_000 / 0x10_0000;
    proof {
        assert(k <= 31);
        assert(packed < 32 * 0x10_0000);
        assert(packed * 1_000_000 / 0x10_0000 <= 32_000_000) by (nonlinear_arith)
            requires
                packed < 32 * 0x10_0000,
        ;
    }
    r64 as u32
}

pub proof fn lemma_p2_mono(a: nat, b: nat)
    requires
        a <= b,
    ensures
        p2(a) <= p2(b),
    decreases b,
{
    if a < b {
        lemma_p2_mono(a, (b - 1) as nat);
        lemma_p2_pos((b - 1) as nat);
    }
}

pub proof fn lemma_p2_values_33()
    ensures
        p2(33) == 0x2_0000_0000,
{
    reveal_with_fuel(p2, 34);
}

pub proof fn lemma_p2_values()
    ensures
        p2(frac_bits()) == 0x10_0000,
        p2(32) == 0x1_0000_0000,
{
    reveal_with_fuel(p2, 33);
}

/// `p2(k) <= v` for a `u32` forces `k <= 31`.
proof fn lemma_p2_mono_bound(k: nat)
    ensures
        k >= 32 ==> p2(k) >= 0x1_0000_0000,
{
    if k >= 32 {
        lemma_p2_values();
        lemma_p2_mono(32, k);
    }
}

proof fn lemma_mantissa_upper(v: nat, k: nat, d: nat)
    requires
        v < 2 * p2(k),
    ensures
        v * p2(d) < 2 * p2(k) * p2(d),
{
    lemma_p2_pos(d);
    assert(v * p2(d) < 2 * p2(k) * p2(d)) by (nonlinear_arith)
        requires
            v < 2 * p2(k),
            p2(d) >= 1,
    ;
}

proof fn lemma_mantissa_range(v: nat, k: nat)
    requires
        k <= 31,
        p2(k) <= v,
        v < 2 * p2(k),
        p2((k + (32 - k)) as nat) == p2(k) * p2((32 - k) as nat),
    ensures
        0x1_0000_0000 <= v * p2((32 - k) as nat) < 0x2_0000_0000,
{
    let d = (32 - k) as nat;
    lemma_p2_pos(d);
    lemma_p2_values();
    assert(p2(k) * p2(d) <= v * p2(d)) by (nonlinear_arith)
        requires
            p2(k) <= v,
            p2(d) >= 1,
    ;
    assert(v * p2(d) < 2 * (p2(k) * p2(d))) by (nonlinear_arith)
        requires
            v < 2 * p2(k),
            p2(d) >= 1,
    ;
}

proof fn lemma_square_range(m: nat)
    requires
        0x1_0000_0000 <= m < 0x2_0000_0000,
    ensures
        m * m < 0x4_0000_0000_0000_0000,
        (m * m) / 0x1_0000_0000 < 0x4_0000_0000,
        (m * m) / 0x1_0000_0000 >= 0x1_0000_0000,
{
    assert(m * m < 0x4_0000_0000_0000_0000) by (nonlinear_arith)
        requires
            m < 0x2_0000_0000,
    ;
    assert(m * m >= 0x1_0000_0000_0000_0000) by (nonlinear_arith)
        requires
            m >= 0x1_0000_0000,
    ;
}

proof fn lemma_log2_frac_unit(i: nat)
    ensures
        log2_frac(0x1_0000_0000, i) == 0,
    decreases i,
{
    if i > 0 {
        assert(0x1_0000_0000 * 0x1_0000_0000 / 0x1_0000_0000 == 0x1_0000_0000nat);
        lemma_log2_frac_unit((i - 1) as nat);
    }
}

/// The logarithm of one is exactly zero.
pub proof fn lemma_log2_fixed_one()
    ensures
        spec_log2_fixed(1) == 0,
{
    lemma_p2_values();
    assert(floor_log2(1) == 0);
    assert(mantissa(1) == 0x1_0000_0000);
    lemma_log2_frac_unit(frac_bits());
}

} // verus!
