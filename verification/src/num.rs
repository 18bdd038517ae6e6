//! Fixed-point numerics for the replay clock and the score formula.
//!
//! Distances and elapsed time carry 16 fractional bits.  The score is
//! `round(1_000_000 * (1 + log2(time / limit)))`, evaluated with a base-2
//! logarithm carrying 20 fractional bits; `log2_fp` extracts the fraction
//! bits by repeated squaring of the normalized mantissa.

use vstd::prelude::*;
use vstd::arithmetic::div_mod::lemma_div_is_ordered;

verus! {

/// The time limit (1e8) in 16-bit fixed point.
pub const TIME_LIMIT_FP: u64 = 6_553_600_000_000;

/// 2 to the power `k`.
pub open spec fn p2(k: nat) -> int
    decreases k,
{
    if k == 0 {
        1
    } else {
        2 * p2((k - 1) as nat)
    }
}

pub proof fn lemma_p2_pos(k: nat)
    ensures
        p2(k) >= 1,
    decreases k,
{
    if k > 0 {
        lemma_p2_pos((k - 1) as nat);
    }
}

/// The integer square root: the unique `r >= 0` with `r^2 <= x < (r+1)^2`.
pub open spec fn sqrt_floor(x: int) -> int {
    choose|r: int| 0 <= r && #[trigger] (r * r) <= x && x < (r + 1) * (r + 1)
}

/// `sqrt_floor` is pinned down by its defining property.
pub proof fn lemma_sqrt_floor_unique(x: int, r: int)
    requires
        0 <= r,
        r * r <= x,
        x < (r + 1) * (r + 1),
    ensures
        sqrt_floor(x) == r,
{
    assert(0 <= r && r * r <= x && x < (r + 1) * (r + 1));
    let c = sqrt_floor(x);
    assert(0 <= c && c * c <= x && x < (c + 1) * (c + 1));
    assert(c == r) by (nonlinear_arith)
        requires
            0 <= r,
            r * r <= x,
            x < (r + 1) * (r + 1),
            0 <= c,
            c * c <= x,
            x < (c + 1) * (c + 1),
    ;
}

/// Integer square root by binary search.
pub fn isqrt(x: u128) -> (r: u64)
    requires
        x < 0x4000_0000_0000_0000_0000_0000_0000_0000,
    ensures
        (r as int) * (r as int) <= x < (r as int + 1) * (r as int + 1),
        r == sqrt_floor(x as int),
{
    let mut lo: u64 = 0;
    let mut hi: u64 = 0x8000_0000_0000_0000;
    proof {
        assert((0x8000_0000_0000_0000 as int) * (0x8000_0000_0000_0000 as int)
            == 0x4000_0000_0000_0000_0000_0000_0000_0000) by (bit_vector);
    }
    while lo + 1 < hi
        invariant
            lo < hi,
            hi <= 0x8000_0000_0000_0000,
            (lo as int) * (lo as int) <= x,
            x < (hi as int) * (hi as int),
        decreases hi - lo,
    {
        let m: u64 = lo + (hi - lo) / 2;
        assert(lo < m < hi);
        proof {
            assert((m as int) * (m as int) < 0x4000_0000_0000_0000_0000_0000_0000_0000)
                by (nonlinear_arith)
                requires
                    0 <= m < 0x8000_0000_0000_0000,
            ;
        }
        let sq: u128 = (m as u128) * (m as u128);
        if sq <= x {
            lo = m;
        } else {
            hi = m;
        }
    }
    proof {
        assert(hi == lo + 1);
        lemma_sqrt_floor_unique(x as int, lo as int);
    }
    lo
}

/// The fraction bits of `log2(m / 2^31)` for a mantissa `m` in
/// `[2^31, 2^32)`: `k` bits extracted by repeated squaring.
pub open spec fn frac_iter(m: int, k: nat) -> int
    decreases k,
{
    if k == 0 {
        0
    } else {
        let s = m * m;
        if s >= 0x8000_0000_0000_0000 {
            p2((k - 1) as nat) + frac_iter(s / 0x1_0000_0000, (k - 1) as nat)
        } else {
            frac_iter(s / 0x8000_0000, (k - 1) as nat)
        }
    }
}

/// One squaring step keeps the mantissa normalized.
proof fn lemma_frac_step(m: int)
    requires
        0x8000_0000 <= m < 0x1_0000_0000,
    ensures
        0x4000_0000_0000_0000 <= m * m < 0x1_0000_0000_0000_0000_0000_0000_0000_0000,
        m * m >= 0x8000_0000_0000_0000 ==> 0x8000_0000 <= m * m / 0x1_0000_0000 < 0x1_0000_0000,
        m * m < 0x8000_0000_0000_0000 ==> 0x8000_0000 <= m * m / 0x8000_0000 < 0x1_0000_0000,
{
    assert(0x4000_0000_0000_0000 <= m * m < 0x1_0000_0000_0000_0000) by (nonlinear_arith)
        requires
            0x8000_0000 <= m < 0x1_0000_0000,
    ;
}

/// The fraction bits lie below `2^k`.
pub proof fn lemma_frac_bound(m: int, k: nat)
    requires
        0x8000_0000 <= m < 0x1_0000_0000,
    ensures
        0 <= frac_iter(m, k) < p2(k),
    decreases k,
{
    if k == 0 {
    } else {
        lemma_frac_step(m);
        let s = m * m;
        if s >= 0x8000_0000_0000_0000 {
            lemma_frac_bound(s / 0x1_0000_0000, (k - 1) as nat);
        } else {
            lemma_frac_bound(s / 0x8000_0000, (k - 1) as nat);
        }
    }
}

/// The extracted fraction is monotone in the mantissa.
pub proof fn lemma_frac_mono(m1: int, m2: int, k: nat)
    requires
        0x8000_0000 <= m1 <= m2 < 0x1_0000_0000,
    ensures
        frac_iter(m1, k) <= frac_iter(m2, k),
    decreases k,
{
    if k == 0 {
    } else {
        lemma_frac_step(m1);
        lemma_frac_step(m2);
        let s1 = m1 * m1;
        let s2 = m2 * m2;
        assert(m1 * m1 <= m2 * m2) by (nonlinear_arith)
            requires
                0 <= m1 <= m2,
        ;
        if s1 >= 0x8000_0000_0000_0000 && s2 >= 0x8000_0000_0000_0000 {
            lemma_div_is_ordered(s1, s2, 0x1_0000_0000);
            lemma_frac_mono(s1 / 0x1_0000_0000, s2 / 0x1_0000_0000, (k - 1) as nat);
        } else if s1 < 0x8000_0000_0000_0000 && s2 < 0x8000_0000_0000_0000 {
            lemma_div_is_ordered(s1, s2, 0x8000_0000);
            lemma_frac_mono(s1 / 0x8000_0000, s2 / 0x8000_0000, (k - 1) as nat);
        } else {
            // the first bit already differs: 0 for m1, 1 for m2
            lemma_frac_bound(s1 / 0x8000_0000, (k - 1) as nat);
            lemma_frac_bound(s2 / 0x1_0000_0000, (k - 1) as nat);
        }
    }
}

/// Fixed-point `log2` of a mantissa in `[1, 2^32)`, in units of `2^-20`,
/// offset so that a normalized mantissa `[2^31, 2^32)` maps to
/// `[31 * 2^20, 32 * 2^20)`.
pub open spec fn lg_small(t: int) -> int
    decreases 0x1_0000_0000 - t,
    when 1 <= t < 0x1_0000_0000
{
    if t < 0x8000_0000 {
        lg_small(2 * t) - 0x100000
    } else {
        31 * 0x100000 + frac_iter(t, 20)
    }
}

/// Fixed-point `log2(t)` in units of `2^-20`, for `t >= 1`.
pub open spec fn log2_fp(t: int) -> int
    decreases t,
    when t >= 1
{
    if t >= 0x1_0000_0000 {
        log2_fp(t / 2) + 0x100000
    } else {
        lg_small(t)
    }
}

proof fn lemma_lg_small_upper(t: int)
    requires
        1 <= t < 0x1_0000_0000,
    ensures
        lg_small(t) < 32 * 0x100000,
        t < 0x8000_0000 ==> lg_small(t) < 31 * 0x100000,
    decreases 0x1_0000_0000 - t,
{
    if t < 0x8000_0000 {
        lemma_lg_small_upper(2 * t);
    } else {
        lemma_frac_bound(t, 20);
        assert(p2(20) == 0x100000) by {
            reveal_with_fuel(p2, 21);
        }
    }
}

proof fn lemma_lg_small_mono(t1: int, t2: int)
    requires
        1 <= t1 <= t2 < 0x1_0000_0000,
    ensures
        lg_small(t1) <= lg_small(t2),
    decreases 0x1_0000_0000 - t1,
{
    if t1 < 0x8000_0000 && t2 < 0x8000_0000 {
        lemma_lg_small_mono(2 * t1, 2 * t2);
    } else if t1 >= 0x8000_0000 && t2 >= 0x8000_0000 {
        lemma_frac_mono(t1, t2, 20);
    } else {
        lemma_lg_small_upper(t1);
        lemma_frac_bound(t2, 20);
    }
}

proof fn lemma_log2_lower_32(t: int)
    requires
        t >= 0x1_0000_0000,
    ensures
        log2_fp(t) >= 32 * 0x100000,
    decreases t,
{
    let h = t / 2;
    assert(0x8000_0000 <= h < t);
    if h >= 0x1_0000_0000 {
        lemma_log2_lower_32(h);
    } else {
        lemma_frac_bound(h, 20);
    }
}

/// `log2_fp` is monotone.
pub proof fn lemma_log2_mono(t1: int, t2: int)
    requires
        1 <= t1 <= t2,
    ensures
        log2_fp(t1) <= log2_fp(t2),
    decreases t2,
{
    if t1 < 0x1_0000_0000 && t2 < 0x1_0000_0000 {
        lemma_lg_small_mono(t1, t2);
    } else if t1 >= 0x1_0000_0000 && t2 >= 0x1_0000_0000 {
        lemma_div_is_ordered(t1, t2, 2);
        assert(1 <= t1 / 2);
        lemma_log2_mono(t1 / 2, t2 / 2);
    } else {
        lemma_lg_small_upper(t1);
        lemma_log2_lower_32(t2);
    }
}

/// The 20 fraction bits of `log2` of a normalized mantissa.
fn log2_frac(m0: u64) -> (r: u64)
    requires
        0x8000_0000 <= m0 < 0x1_0000_0000,
    ensures
        r == frac_iter(m0 as int, 20),
        r < 0x100000,
{
    let mut m: u64 = m0;
    let mut acc: u64 = 0;
    let mut i: usize = 0;
    while i < 20
        invariant
            i <= 20,
            0x8000_0000 <= m < 0x1_0000_0000,
            0 <= acc < p2(i as nat),
            frac_iter(m0 as int, 20) == acc * p2((20 - i) as nat) + frac_iter(
                m as int,
                (20 - i) as nat,
            ),
        decreases 20 - i,
    {
        proof {
            lemma_frac_step(m as int);
            lemma_frac_bound(m as int, (20 - i) as nat);
            lemma_p2_pos((19 - i) as nat);
            lemma_p2_le(i as nat, 19);
            assert(p2(19) == 0x80000) by {
                reveal_with_fuel(p2, 20);
            }
        }
        let s: u128 = (m as u128) * (m as u128);
        let ghost old_acc = acc as int;
        let ghost old_m = m as int;
        let ghost pa = p2((19 - i) as nat);
        if s >= 0x8000_0000_0000_0000 {
            m = (s / 0x1_0000_0000) as u64;
            acc = 2 * acc + 1;
        } else {
            m = (s / 0x8000_0000) as u64;
            acc = 2 * acc;
        }
        i = i + 1;
        proof {
            assert(p2((21 - i) as nat) == 2 * pa && p2((20 - i) as nat) == pa);
            assert(old_acc * (2 * pa) == (2 * old_acc) * pa) by (nonlinear_arith);
            assert((2 * old_acc + 1) * pa == (2 * old_acc) * pa + pa) by (nonlinear_arith);
            assert(frac_iter(old_m, (21 - i) as nat) == (if old_m * old_m
                >= 0x8000_0000_0000_0000 {
                pa + frac_iter(old_m * old_m / 0x1_0000_0000, (20 - i) as nat)
            } else {
                frac_iter(old_m * old_m / 0x8000_0000, (20 - i) as nat)
            }));
        }
    }
    proof {
        assert(p2(0) == 1 && p2(20) == 0x100000) by {
            reveal_with_fuel(p2, 21);
        }
        assert(frac_iter(m as int, (20 - i) as nat) == 0) by {
            reveal_with_fuel(frac_iter, 1);
        }
        assert(acc * p2((20 - i) as nat) == acc * 1 == acc);
    }
    acc
}

proof fn lemma_p2_le(a: nat, b: nat)
    requires
        a <= b,
    ensures
        1 <= p2(a) <= p2(b),
    decreases b,
{
    lemma_p2_pos(a);
    if a < b {
        lemma_p2_le(a, (b - 1) as nat);
        lemma_p2_pos((b - 1) as nat);
    }
}

proof fn lemma_p2_32(k: nat)
    requires
        k >= 32,
    ensures
        p2(k) >= 0x1_0000_0000,
{
    lemma_p2_le(32, k);
    assert(p2(32) == 0x1_0000_0000) by {
        reveal_with_fuel(p2, 33);
    }
}

proof fn lemma_p2_31(k: nat)
    requires
        k >= 31,
    ensures
        p2(k) >= 0x8000_0000,
{
    lemma_p2_le(31, k);
    assert(p2(31) == 0x8000_0000) by {
        reveal_with_fuel(p2, 32);
    }
}

/// Fixed-point `log2` (20 fraction bits).
pub fn log2_fixed(t: u64) -> (r: i64)
    requires
        t >= 1,
    ensures
        r == log2_fp(t as int),
        0 <= r < 64 * 0x100000,
{
    let mut v: u64 = t;
    let mut down: u64 = 0;
    while v >= 0x1_0000_0000
        invariant
            1 <= v,
            down <= 32,
            p2(down as nat) * (v as int) <= t,
            log2_fp(t as int) == log2_fp(v as int) + down * 0x100000,
        decreases v,
    {
        proof {
            lemma_p2_pos(down as nat);
            let ghost pd = p2(down as nat);
            assert(down < 32) by {
                if down >= 32 {
                    lemma_p2_32(down as nat);
                    assert(pd * (v as int) >= 0x1_0000_0000 * 0x1_0000_0000)
                        by (nonlinear_arith)
                        requires
                            pd >= 0x1_0000_0000,
                            v >= 0x1_0000_0000,
                    ;
                }
            }
            assert((2 * pd) * ((v as int) / 2) <= pd * (v as int)) by (nonlinear_arith)
                requires
                    pd >= 1,
                    v >= 1,
            ;
            assert(p2((down + 1) as nat) == 2 * pd);
        }
        v = v / 2;
        down = down + 1;
    }
    proof {
        assert(log2_fp(v as int) == lg_small(v as int));
    }
    let mut up: u64 = 0;
    while v < 0x8000_0000
        invariant
            1 <= v < 0x1_0000_0000,
            up <= 31,
            down <= 32,
            p2(up as nat) <= v,
            log2_fp(t as int) == lg_small(v as int) + down * 0x100000 - up * 0x100000,
        decreases 0x1_0000_0000 - v,
    {
        proof {
            lemma_p2_pos(up as nat);
            assert(up < 31) by {
                if up >= 31 {
                    lemma_p2_31(up as nat);
                }
            }
            assert(p2((up + 1) as nat) == 2 * p2(up as nat));
            assert(lg_small(v as int) == lg_small(2 * (v as int)) - 0x100000);
        }
        v = 2 * v;
        up = up + 1;
    }
    let f: u64 = log2_frac(v);
    proof {
        assert(lg_small(v as int) == 31 * 0x100000 + frac_iter(v as int, 20));
    }
    let r: i64 = 31 * 0x100000 + (f as i64) + (down as i64) * 0x100000 - (up as i64) * 0x100000;
    r
}


/// Division rounded to the nearest integer, halves away from zero.
pub open spec fn round_div(n: int, d: int) -> int
    recommends
        d > 0,
{
    if n >= 0 {
        (2 * n + d) / (2 * d)
    } else {
        -((2 * -n + d) / (2 * d))
    }
}

/// Rounded division is monotone in the numerator.
pub proof fn lemma_round_div_mono(n1: int, n2: int, d: int)
    requires
        n1 <= n2,
        d > 0,
    ensures
        round_div(n1, d) <= round_div(n2, d),
{
    if n1 >= 0 {
        lemma_div_is_ordered(2 * n1 + d, 2 * n2 + d, 2 * d);
    } else if n2 < 0 {
        lemma_div_is_ordered(2 * -n2 + d, 2 * -n1 + d, 2 * d);
    } else {
        vstd::arithmetic::div_mod::lemma_div_pos_is_pos(2 * n2 + d, 2 * d);
        vstd::arithmetic::div_mod::lemma_div_pos_is_pos(2 * -n1 + d, 2 * d);
    }
}

/// Rounded division, executable.
pub fn round_div_exec(n: i64, d: i64) -> (r: i64)
    requires
        d > 0,
        -0x1_0000_0000_0000 < n < 0x1_0000_0000_0000,
        d < 0x1_0000_0000_0000,
    ensures
        r == round_div(n as int, d as int),
{
    if n >= 0 {
        (2 * n + d) / (2 * d)
    } else {
        let q: i64 = (2 * (-n) + d) / (2 * d);
        -q
    }
}

/// The score granted for a fully collected scenario with elapsed fixed-point
/// time `t <= TIME_LIMIT_FP`: `round(1_000_000 * (1 + log2(t / 1e8)))`, with
/// a zero elapsed time granted the maximum score of 1,000,000 (the formula
/// is undefined there).
pub open spec fn score_time(t: int) -> int {
    if t == 0 {
        1_000_000
    } else {
        round_div(1_000_000 * (0x100000 + log2_fp(t) - log2_fp(TIME_LIMIT_FP as int)), 0x100000)
    }
}

/// A full collection at exactly the time limit scores exactly 1,000,000.
pub proof fn lemma_score_at_limit()
    ensures
        score_time(TIME_LIMIT_FP as int) == 1_000_000,
{
    let n: int = (1_000_000 * 0x100000) as int;
    assert(2 * n + 0x100000 == 1_000_000 * 0x200000 + 0x100000);
    vstd::arithmetic::div_mod::lemma_fundamental_div_mod_converse(
        2 * n + 0x100000,
        0x200000,
        1_000_000,
        0x100000,
    );
}

/// The score is monotone, non-decreasing, in the elapsed time, up to the
/// limit: the `log2` term only grows with the time.
pub proof fn lemma_score_mono(t1: int, t2: int)
    requires
        0 < t1 <= t2 <= TIME_LIMIT_FP,
    ensures
        score_time(t1) <= score_time(t2),
{
    lemma_log2_mono(t1, t2);
    let l = log2_fp(TIME_LIMIT_FP as int);
    assert(1_000_000 * (0x100000 + log2_fp(t1) - l) <= 1_000_000 * (0x100000 + log2_fp(t2) - l))
        by (nonlinear_arith)
        requires
            log2_fp(t1) <= log2_fp(t2),
    ;
    lemma_round_div_mono(
        1_000_000 * (0x100000 + log2_fp(t1) - l),
        1_000_000 * (0x100000 + log2_fp(t2) - l),
        0x100000,
    );
}

/// The executable score formula.
pub fn score_of_time(t: u64) -> (r: i64)
    requires
        t <= TIME_LIMIT_FP,
    ensures
        r == score_time(t as int),
{
    if t == 0 {
        1_000_000
    } else {
        let lt: i64 = log2_fixed(t);
        let ll: i64 = log2_fixed(TIME_LIMIT_FP);
        let n: i64 = 1_000_000 * (0x100000 + lt - ll);
        round_div_exec(n, 0x100000)
    }
}

} // verus!
