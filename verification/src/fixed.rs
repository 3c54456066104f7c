use vstd::prelude::*;
use vstd::arithmetic::div_mod::lemma_fundamental_div_mod;
use vstd::arithmetic::power2::lemma2_to64;
use vstd::arithmetic::power2::lemma_pow2_adds;
use vstd::arithmetic::power2::pow2;

verus! {

/// Scale of the fixed-point quantities used by the bandit and by the
/// probabilistic strategy: the real value x is carried as x * SCALE,
/// rounded toward zero.
pub const SCALE: u64 = 1024;

/// ln(2) at scale SCALE, rounded to the nearest integer.
pub const LN2_FP: u64 = 710;

/// A sum clamped to the i64 range.
pub open spec fn sat_i64(x: int) -> int {
    if x > i64::MAX as int {
        i64::MAX as int
    } else if x < i64::MIN as int {
        i64::MIN as int
    } else {
        x
    }
}

/// Saturating signed addition.
pub fn sat_add_i64(a: i64, b: i64) -> (r: i64)
    ensures
        r as int == sat_i64(a + b),
{
    let s: i128 = a as i128 + b as i128;
    if s > i64::MAX as i128 {
        i64::MAX
    } else if s < i64::MIN as i128 {
        i64::MIN
    } else {
        s as i64
    }
}

/// A counter increment clamped at the top of the u64 range.
pub open spec fn sat_inc(x: int) -> int {
    if x + 1 > u64::MAX as int {
        u64::MAX as int
    } else {
        x + 1
    }
}

pub fn sat_inc_u64(a: u64) -> (r: u64)
    ensures
        r as int == sat_inc(a as int),
{
    if a < u64::MAX {
        a + 1
    } else {
        a
    }
}

/// floor(log2(n)); 0 for n <= 1.
pub open spec fn floor_log2(n: nat) -> nat
    decreases n,
{
    if n < 2 {
        0
    } else {
        1 + floor_log2(n / 2)
    }
}

proof fn lemma_floor_log2_bound(n: nat, k: nat)
    requires
        n < pow2(k + 1),
    ensures
        floor_log2(n) <= k,
    decreases n,
{
    if n < 2 {
    } else {
        lemma_pow2_adds(1, k);
        lemma2_to64();
        assert(pow2(k + 1) == 2 * pow2(k));
        assert(k >= 1) by {
            if k == 0 {
                assert(pow2(1) == 2) by { lemma2_to64(); }
            }
        }
        lemma_pow2_adds(1, (k - 1) as nat);
        assert(n / 2 < pow2(k));
        lemma_floor_log2_bound(n / 2, (k - 1) as nat);
    }
}

pub fn log2_floor(n: u64) -> (r: u64)
    requires
        n >= 1,
    ensures
        r as nat == floor_log2(n as nat),
        r <= 63,
{
    proof {
        lemma2_to64();
        lemma_floor_log2_bound(n as nat, 63);
    }
    let mut m = n;
    let mut r: u64 = 0;
    while m >= 2
        invariant
            m >= 1,
            floor_log2(n as nat) == r + floor_log2(m as nat),
            floor_log2(n as nat) <= 63,
        decreases m,
    {
        m = m / 2;
        r = r + 1;
    }
    r
}

/// floor(sqrt(n)).
pub open spec fn sqrt_floor(n: nat) -> nat
    decreases n,
{
    if n == 0 {
        0
    } else {
        let r = 2 * sqrt_floor(n / 4);
        if (r + 1) * (r + 1) <= n {
            r + 1
        } else {
            r
        }
    }
}

pub proof fn lemma_sqrt_floor_bracket(n: nat)
    ensures
        sqrt_floor(n) * sqrt_floor(n) <= n,
        n < (sqrt_floor(n) + 1) * (sqrt_floor(n) + 1),
    decreases n,
{
    if n == 0 {
        assert(sqrt_floor(n) == 0);
        assert(sqrt_floor(n) * sqrt_floor(n) <= n) by (nonlinear_arith)
            requires
                sqrt_floor(n) == 0,
                n == 0,
        ;
        assert(n < (sqrt_floor(n) + 1) * (sqrt_floor(n) + 1)) by (nonlinear_arith)
            requires
                sqrt_floor(n) == 0,
                n == 0,
        ;
    } else {
        lemma_sqrt_floor_bracket(n / 4);
        let s = sqrt_floor(n / 4);
        lemma_fundamental_div_mod(n as int, 4);
        assert((2 * s) * (2 * s) <= n) by (nonlinear_arith)
            requires
                s * s <= n / 4,
                n == 4 * (n / 4) + n % 4,
                0 <= n % 4,
        ;
        assert(n < (2 * s + 2) * (2 * s + 2)) by (nonlinear_arith)
            requires
                n / 4 < (s + 1) * (s + 1),
                n == 4 * (n / 4) + n % 4,
                n % 4 < 4,
        ;
        if (2 * s + 1) * (2 * s + 1) <= n {
            assert(sqrt_floor(n) == 2 * s + 1);
            assert(sqrt_floor(n) * sqrt_floor(n) <= n);
            assert(n < (sqrt_floor(n) + 1) * (sqrt_floor(n) + 1));
        } else {
            assert(sqrt_floor(n) == 2 * s);
            assert(sqrt_floor(n) * sqrt_floor(n) <= n);
            assert(n < (sqrt_floor(n) + 1) * (sqrt_floor(n) + 1));
        }
    }
}

pub proof fn lemma_sqrt_floor_unique(n: nat, r: nat)
    requires
        r * r <= n,
        n < (r + 1) * (r + 1),
    ensures
        r == sqrt_floor(n),
{
    lemma_sqrt_floor_bracket(n);
    let s = sqrt_floor(n);
    if r < s {
        assert(false) by (nonlinear_arith)
            requires
                r < s,
                s * s <= n,
                n < (r + 1) * (r + 1),
        ;
    }
    if s < r {
        assert(false) by (nonlinear_arith)
            requires
                s < r,
                r * r <= n,
                n < (s + 1) * (s + 1),
        ;
    }
}

/// floor(sqrt(n)), by binary search over the answer.
pub fn isqrt_u64(n: u64) -> (r: u64)
    ensures
        r as nat == sqrt_floor(n as nat),
{
    if n == 0 {
        return 0;
    }
    let mut lo: u64 = 0;
    let mut hi: u64 = 4294967296;
    assert((n as nat) < (hi as nat) * (hi as nat)) by (nonlinear_arith)
        requires
            hi == 4294967296u64,
            n <= 0xffffffffffffffffu64,
    ;
    while lo + 1 < hi
        invariant
            lo < hi,
            hi <= 4294967296,
            (lo as nat) * (lo as nat) <= n as nat,
            (n as nat) < (hi as nat) * (hi as nat),
        decreases hi - lo,
    {
        let mid = lo + (hi - lo) / 2;
        proof {
            assert((mid as nat) * (mid as nat) <= 0xffffffffffffffffffffffffffffffff)
                by (nonlinear_arith)
                requires
                    mid <= 4294967296u64,
            ;
        }
        if (mid as u128) * (mid as u128) <= n as u128 {
            lo = mid;
        } else {
            hi = mid;
        }
    }
    proof {
        lemma_sqrt_floor_unique(n as nat, lo as nat);
    }
    lo
}

/// Fixed-point weight SCALE * exp(-d / SCALE), approximated by the
/// rational function SCALE^2 / (SCALE + d + d^2 / (2 * SCALE)) and cut
/// off to 0 beyond 8 * SCALE. Equal inputs get equal weights, a zero
/// input gets exactly SCALE, and the weight shrinks as d grows; that is
/// all the softmax below relies on.
pub open spec fn exp_fp(d: nat) -> nat {
    if d > 8192 {
        0
    } else {
        (1024 * 1024) / (1024 + d + (d * d) / 2048)
    }
}

pub proof fn lemma_exp_fp_le_scale(d: nat)
    ensures
        exp_fp(d) <= 1024,
{
    if d <= 8192 {
        vstd::arithmetic::div_mod::lemma_div_is_ordered_by_denominator(
            1024int * 1024,
            1024int,
            1024int + d + (d * d) / 2048,
        );
        assert(exp_fp(d) == (1024int * 1024) / (1024int + d + (d * d) / 2048));
        assert((1024int * 1024) / 1024int == 1024);
    }
}

pub fn exp_neg_fp(d: u64) -> (r: u64)
    ensures
        r as nat == exp_fp(d as nat),
        r <= 1024,
{
    proof {
        lemma_exp_fp_le_scale(d as nat);
    }
    if d > 8192 {
        0
    } else {
        proof {
            assert(d * d <= 67108864) by (nonlinear_arith)
                requires
                    d <= 8192u64,
            ;
        }
        (1024 * 1024) / (1024 + d + (d * d) / 2048)
    }
}

/// Mean reward at scale SCALE: score * SCALE / visits rounded toward
/// zero, and 0 for an unvisited node.
pub open spec fn q_fp(score: int, visits: nat) -> int {
    if visits == 0 {
        0
    } else if score >= 0 {
        (score * SCALE) / visits as int
    } else {
        -((-score * SCALE) / visits as int)
    }
}

pub fn q_value_fp(score: i64, visits: u64) -> (q: i128)
    ensures
        q as int == q_fp(score as int, visits as nat),
        visits == 0 ==> q == 0,
        -0x20000000000000000000 <= q <= 0x20000000000000000000,
{
    if visits == 0 {
        0
    } else if score >= 0 {
        let mag = (score as u128 * 1024) / (visits as u128);
        proof {
            vstd::arithmetic::div_mod::lemma_div_is_ordered_by_denominator(
                score as int * 1024,
                1,
                visits as int,
            );
        }
        mag as i128
    } else {
        let mag = ((-(score as i128)) as u128 * 1024) / (visits as u128);
        proof {
            vstd::arithmetic::div_mod::lemma_div_is_ordered_by_denominator(
                -(score as int) * 1024,
                1,
                visits as int,
            );
        }
        -(mag as i128)
    }
}

/// The exploration bonus of UCB1 at scale SCALE:
/// SCALE * sqrt(2 * ln(max(parent_visits, 1)) / max(child_visits, 1)),
/// with the natural log approximated by floor_log2 * LN2_FP.
pub open spec fn max1(n: nat) -> nat {
    if n == 0 {
        1
    } else {
        n
    }
}

pub open spec fn ln_fp(n: nat) -> nat {
    floor_log2(n) * (LN2_FP as nat)
}

pub open spec fn bonus_fp(parent_visits: nat, child_visits: nat) -> nat {
    sqrt_floor((2 * (SCALE as nat) * ln_fp(max1(parent_visits))) / max1(child_visits))
}

pub fn ucb1_bonus(parent_visits: u64, child_visits: u64) -> (b: u64)
    ensures
        b as nat == bonus_fp(parent_visits as nat, child_visits as nat),
        b <= 9571,
{
    let np = if parent_visits == 0 { 1 } else { parent_visits };
    let nc = if child_visits == 0 { 1 } else { child_visits };
    let ln = log2_floor(np) * LN2_FP;
    proof {
        assert(2 * SCALE * ln <= 91607040) by (nonlinear_arith)
            requires
                ln <= 44730u64,
                SCALE == 1024u64,
        ;
    }
    let arg = 2 * SCALE * ln / nc;
    let b = isqrt_u64(arg);
    proof {
        assert(arg <= 91607040);
        lemma_sqrt_floor_bracket(arg as nat);
        assert(b <= 9571) by (nonlinear_arith)
            requires
                (b as nat) * (b as nat) <= arg as nat,
                arg <= 91607040,
        ;
    }
    b
}

/// The full UCB1 value of a child at scale SCALE: mean reward plus
/// exploration bonus.
pub open spec fn ucb1_fp(score: int, visits: nat, parent_visits: nat) -> int {
    q_fp(score, visits) + bonus_fp(parent_visits, visits)
}

/// Mean rewards compared exactly, as the rationals score / visits (an
/// unvisited node counts as 0): first the numerator and denominator of
/// such a rational, then the cross-multiplied strict order.
pub open spec fn q_num(score: int, visits: nat) -> int {
    if visits == 0 {
        0
    } else {
        score
    }
}

pub open spec fn q_den(score: int, visits: nat) -> int {
    if visits == 0 {
        1
    } else {
        visits as int
    }
}

pub open spec fn q_lt(s1: int, v1: nat, s2: int, v2: nat) -> bool {
    q_num(s1, v1) * q_den(s2, v2) < q_num(s2, v2) * q_den(s1, v1)
}

/// Exact mean-reward comparison: score1 / visits1 < score2 / visits2.
pub fn q_less(s1: i64, v1: u64, s2: i64, v2: u64) -> (r: bool)
    ensures
        r == q_lt(s1 as int, v1 as nat, s2 as int, v2 as nat),
{
    let a1: i128 = if v1 == 0 { 0 } else { s1 as i128 };
    let b1: i128 = if v1 == 0 { 1 } else { v1 as i128 };
    let a2: i128 = if v2 == 0 { 0 } else { s2 as i128 };
    let b2: i128 = if v2 == 0 { 1 } else { v2 as i128 };
    proof {
        assert(a1 * b2 <= 0x7fffffffffffffffffffffffffffffff && a1 * b2
            >= -0x7fffffffffffffffffffffffffffffff) by (nonlinear_arith)
            requires
                -0x8000000000000000 <= a1 <= 0x7fffffffffffffff,
                1 <= b2 <= 0xffffffffffffffff,
        ;
        assert(a2 * b1 <= 0x7fffffffffffffffffffffffffffffff && a2 * b1
            >= -0x7fffffffffffffffffffffffffffffff) by (nonlinear_arith)
            requires
                -0x8000000000000000 <= a2 <= 0x7fffffffffffffff,
                1 <= b1 <= 0xffffffffffffffff,
        ;
    }
    a1 * b2 < a2 * b1
}

/// A mean reward below another stays below anything the other does
/// not exceed: if q1 >= q2 and q1 < q3 then q2 < q3.
pub proof fn lemma_q_lt_across(s1: int, v1: nat, s2: int, v2: nat, s3: int, v3: nat)
    requires
        !q_lt(s1, v1, s2, v2),
        q_lt(s1, v1, s3, v3),
    ensures
        q_lt(s2, v2, s3, v3),
{
    let n1 = q_num(s1, v1);
    let d1 = q_den(s1, v1);
    let n2 = q_num(s2, v2);
    let d2 = q_den(s2, v2);
    let n3 = q_num(s3, v3);
    let d3 = q_den(s3, v3);
    assert(n2 * d3 < n3 * d2) by (nonlinear_arith)
        requires
            d1 > 0,
            d2 > 0,
            d3 > 0,
            !(n1 * d2 < n2 * d1),
            n1 * d3 < n3 * d1,
    ;
}

/// The mean-reward order is transitive: if q1 >= q2 and q2 >= q3 then
/// q1 >= q3, each comparison taken exactly over the rationals.
pub proof fn lemma_q_ge_trans(s1: int, v1: nat, s2: int, v2: nat, s3: int, v3: nat)
    requires
        !q_lt(s1, v1, s2, v2),
        !q_lt(s2, v2, s3, v3),
    ensures
        !q_lt(s1, v1, s3, v3),
{
    let n1 = q_num(s1, v1);
    let d1 = q_den(s1, v1);
    let n2 = q_num(s2, v2);
    let d2 = q_den(s2, v2);
    let n3 = q_num(s3, v3);
    let d3 = q_den(s3, v3);
    assert(!(n1 * d3 < n3 * d1)) by (nonlinear_arith)
        requires
            d1 > 0,
            d2 > 0,
            d3 > 0,
            !(n1 * d2 < n2 * d1),
            !(n2 * d3 < n3 * d2),
    ;
}

} // verus!
