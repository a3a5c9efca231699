//! Binary64 arithmetic modelled over integers: a positive value is a 53-bit
//! significand times a power of two, and every operation rounds its exact
//! result to the nearest such value, ties going to the even significand.
//! The model covers values between 2^-1022 and 2^1024, where binary64
//! numbers are normal; zero is `(0, 0)`.
use vstd::prelude::*;

use vstd::arithmetic::power2::{lemma2_to64, lemma2_to64_rest, lemma_pow2_pos, lemma_pow2_strictly_increases, lemma_pow2_unfold, pow2};

verus! {

/// The smallest 53-bit significand, 2^52.
pub const SIGNIFICAND_MIN: u64 = 0x10_0000_0000_0000;

/// One past the largest 53-bit significand, 2^53.
pub const SIGNIFICAND_END: u64 = 0x20_0000_0000_0000;

/// Divided by 2^j, `a / b` lies in [2^52, 2^53).
pub open spec fn in_binade(a: int, b: int, j: int) -> bool {
    if j >= 0 {
        SIGNIFICAND_MIN * (b * pow2(j as nat)) <= a < SIGNIFICAND_END * (b * pow2(j as nat))
    } else {
        SIGNIFICAND_MIN * b <= a * pow2((-j) as nat) < SIGNIFICAND_END * b
    }
}

/// The power of two that brings `a / b` (both positive) into [2^52, 2^53).
pub open spec fn binade(a: int, b: int) -> int
    decreases
        (if b > 0 && a >= SIGNIFICAND_END * b { a - SIGNIFICAND_END * b + 1 } else { 0 }),
        (if 0 < a < SIGNIFICAND_MIN * b { SIGNIFICAND_MIN * b - a } else { 0 }),
{
    if a <= 0 || b <= 0 {
        0
    } else if a >= SIGNIFICAND_END * b {
        binade(a, 2 * b) + 1
    } else if a < SIGNIFICAND_MIN * b {
        binade(2 * a, b) - 1
    } else {
        0
    }
}

/// The binary64 nearest to `a / b * 2^s` (`a >= 0`, `b > 0`), as a
/// significand and an exponent: the quotient keeps 53 significant bits and
/// a remainder of exactly half rounds to the even significand.
pub open spec fn nearest(a: int, b: int, s: int) -> (int, int) {
    if a <= 0 || b <= 0 {
        (0, 0)
    } else {
        let j = binade(a, b);
        let num = if j >= 0 { a } else { a * pow2((-j) as nat) };
        let den = if j >= 0 { b * pow2(j as nat) } else { b };
        let q = num / den;
        let r = num % den;
        let m = if 2 * r > den || (2 * r == den && q % 2 == 1) { q + 1 } else { q };
        if m == SIGNIFICAND_END { (SIGNIFICAND_MIN as int, s + j + 1) } else { (m, s + j) }
    }
}

/// A non-negative integer converted to binary64.
pub open spec fn from_integer(n: int) -> (int, int) {
    nearest(n, 1, 0)
}

/// The binary64 product of two values.
pub open spec fn product(x: (int, int), y: (int, int)) -> (int, int) {
    nearest(x.0 * y.0, 1, x.1 + y.1)
}

/// The binary64 quotient of a value by a positive integer.
pub open spec fn quotient(x: (int, int), c: int) -> (int, int) {
    nearest(x.0, c, x.1)
}

/// A non-negative binary64 converted to `u64`: the fraction is dropped and
/// values past `u64::MAX` give `u64::MAX`.
pub open spec fn to_u64_saturating(x: (int, int)) -> int {
    if x.1 >= 0 {
        let v = x.0 * pow2(x.1 as nat);
        if v > u64::MAX { u64::MAX as int } else { v }
    } else {
        x.0 / (pow2((-x.1) as nat) as int)
    }
}

proof fn lemma_pow2_at_least_two(k: nat)
    requires
        k >= 1,
    ensures
        pow2(k) >= 2,
{
    lemma_pow2_unfold(k);
    lemma_pow2_pos((k - 1) as nat);
}

proof fn lemma_binade_unique(a: int, b: int, j: int)
    requires
        a > 0,
        b > 0,
        in_binade(a, b, j),
    ensures
        binade(a, b) == j,
    decreases
        (if b > 0 && a >= SIGNIFICAND_END * b { a - SIGNIFICAND_END * b + 1 } else { 0 }),
        (if 0 < a < SIGNIFICAND_MIN * b { SIGNIFICAND_MIN * b - a } else { 0 }),
{
    let lo = SIGNIFICAND_MIN as int;
    let hi = SIGNIFICAND_END as int;
    lemma2_to64();
    assert(pow2(0) == 1 && pow2(1) == 2);
    if a >= hi * b {
        if j == 0 {
            assert(b * pow2(0) == b);
            assert(false);
        } else if j < 0 {
            let p = pow2((-j) as nat);
            lemma_pow2_pos((-j) as nat);
            assert(a <= a * p) by (nonlinear_arith)
                requires a > 0, p >= 1;
            assert(false);
        }
        let p = pow2(j as nat);
        let p1 = pow2((j - 1) as nat);
        lemma_pow2_unfold(j as nat);
        assert((2 * b) * p1 == b * p) by (nonlinear_arith)
            requires p == 2 * p1;
        assert(in_binade(a, 2 * b, j - 1));
        lemma_binade_unique(a, 2 * b, j - 1);
    } else if a < lo * b {
        if j >= 0 {
            let p = pow2(j as nat);
            lemma_pow2_pos(j as nat);
            assert(lo * b <= lo * (b * p)) by (nonlinear_arith)
                requires b > 0, p >= 1, lo > 0;
            assert(false);
        }
        if j == -1 {
            assert(b * pow2(0) == b);
            assert(a * pow2(1) == 2 * a);
            assert(in_binade(2 * a, b, 0));
        } else {
            let p = pow2((-j) as nat);
            let p1 = pow2((-j - 1) as nat);
            lemma_pow2_unfold((-j) as nat);
            assert((2 * a) * p1 == a * p) by (nonlinear_arith)
                requires p == 2 * p1;
            assert(in_binade(2 * a, b, j + 1));
        }
        lemma_binade_unique(2 * a, b, j + 1);
    } else {
        if j > 0 {
            let p = pow2(j as nat);
            lemma_pow2_at_least_two(j as nat);
            assert(hi * b <= lo * (b * p)) by (nonlinear_arith)
                requires b > 0, p >= 2, hi == 2 * lo, lo > 0;
            assert(false);
        } else if j < 0 {
            let p = pow2((-j) as nat);
            lemma_pow2_at_least_two((-j) as nat);
            assert(2 * a <= a * p) by (nonlinear_arith)
                requires a > 0, p >= 2;
            assert(false);
        }
    }
}

/// The value of `x` times 2^-t, for `t` at most its exponent.
pub open spec fn scaled(x: (int, int), t: int) -> int {
    x.0 * pow2((x.1 - t) as nat)
}

/// `x` is at most `y` as a number.
pub open spec fn value_le(x: (int, int), y: (int, int)) -> bool {
    let t = if x.1 <= y.1 { x.1 } else { y.1 };
    scaled(x, t) <= scaled(y, t)
}

proof fn lemma_binade_holds(a: int, b: int)
    requires
        a > 0,
        b > 0,
    ensures
        in_binade(a, b, binade(a, b)),
    decreases
        (if b > 0 && a >= SIGNIFICAND_END * b { a - SIGNIFICAND_END * b + 1 } else { 0 }),
        (if 0 < a < SIGNIFICAND_MIN * b { SIGNIFICAND_MIN * b - a } else { 0 }),
{
    let lo = SIGNIFICAND_MIN as int;
    let hi = SIGNIFICAND_END as int;
    lemma2_to64();
    assert(pow2(0) == 1 && pow2(1) == 2);
    if a >= hi * b {
        lemma_binade_holds(a, 2 * b);
        let j = binade(a, 2 * b);
        if j < 0 {
            let p = pow2((-j) as nat);
            lemma_pow2_at_least_two((-j) as nat);
            assert(2 * a <= a * p) by (nonlinear_arith)
                requires a > 0, p >= 2;
            assert(false);
        }
        let p = pow2(j as nat);
        lemma_pow2_unfold((j + 1) as nat);
        assert(b * pow2((j + 1) as nat) == (2 * b) * p) by (nonlinear_arith)
            requires pow2((j + 1) as nat) == 2 * p;
    } else if a < lo * b {
        lemma_binade_holds(2 * a, b);
        let j = binade(2 * a, b);
        if j > 0 {
            let p = pow2(j as nat);
            lemma_pow2_at_least_two(j as nat);
            assert(hi * b <= lo * (b * p)) by (nonlinear_arith)
                requires b > 0, p >= 2, hi == 2 * lo, lo > 0;
            assert(false);
        }
        if j == 0 {
            assert(b * pow2(0) == b);
            assert(a * pow2(1) == 2 * a);
        } else {
            let p = pow2((-j) as nat);
            lemma_pow2_unfold((1 - j) as nat);
            assert(a * pow2((1 - j) as nat) == (2 * a) * p) by (nonlinear_arith)
                requires pow2((1 - j) as nat) == 2 * p;
        }
    } else {
        assert(b * pow2(0) == b);
    }
}

/// Multiplying numerator and denominator by `p` keeps the quotient and
/// scales the remainder.
proof fn lemma_div_scale(num: int, den: int, p: int)
    requires
        num >= 0,
        den > 0,
        p > 0,
    ensures
        (num * p) / (den * p) == num / den,
        (num * p) % (den * p) == (num % den) * p,
{
    let q = num / den;
    let r = num % den;
    vstd::arithmetic::div_mod::lemma_fundamental_div_mod(num, den);
    vstd::arithmetic::div_mod::lemma_mod_pos_bound(num, den);
    assert(num * p == (den * p) * q + r * p) by (nonlinear_arith)
        requires num == den * q + r;
    assert(0 <= r * p < den * p) by (nonlinear_arith)
        requires 0 <= r < den, p > 0;
    vstd::arithmetic::div_mod::lemma_fundamental_div_mod_converse(num * p, den * p, q, r * p);
}

/// Results of rounding are non-negative significands below 2^53.
pub proof fn lemma_nearest_bounds(a: int, b: int, s: int)
    requires
        a >= 0,
        b >= 1,
    ensures
        0 <= nearest(a, b, s).0 < SIGNIFICAND_END,
        a > 0 ==> nearest(a, b, s).0 >= SIGNIFICAND_MIN,
{
    if a > 0 {
        lemma_binade_holds(a, b);
        let j = binade(a, b);
        let num = if j >= 0 { a } else { a * pow2((-j) as nat) };
        let den = if j >= 0 { b * pow2(j as nat) } else { b };
        lemma_pow2_pos(j as nat);
        lemma_pow2_pos((-j) as nat);
        assert(den > 0) by (nonlinear_arith)
            requires den == b * pow2(j as nat) || den == b, b >= 1, pow2(j as nat) > 0;
        assert(SIGNIFICAND_MIN * den <= num < SIGNIFICAND_END * den);
        let q = num / den;
        vstd::arithmetic::div_mod::lemma_fundamental_div_mod(num, den);
        vstd::arithmetic::div_mod::lemma_mod_pos_bound(num, den);
        assert(SIGNIFICAND_MIN <= q < SIGNIFICAND_END) by (nonlinear_arith)
            requires
                SIGNIFICAND_MIN * den <= num < SIGNIFICAND_END * den,
                num == den * q + num % den,
                0 <= num % den < den,
                den > 0;
    }
}

/// Rounding does not see a power of two moved from the exponent into the
/// operand.
pub proof fn lemma_nearest_shift(a: int, b: int, s: int, k: nat)
    requires
        a >= 0,
        b >= 1,
    ensures
        nearest(a * pow2(k), b, s - k) == nearest(a, b, s),
{
    let pk = pow2(k);
    lemma_pow2_pos(k);
    if a == 0 {
        assert(a * pk == 0);
        return;
    }
    assert(a * pk > 0) by (nonlinear_arith)
        requires a > 0, pk > 0;
    let lo = SIGNIFICAND_MIN as int;
    let hi = SIGNIFICAND_END as int;
    lemma_binade_holds(a, b);
    let j = binade(a, b);
    let ak = a * pk;
    let num = if j >= 0 { a } else { a * pow2((-j) as nat) };
    let den = if j >= 0 { b * pow2(j as nat) } else { b };
    let num2 = if j + k >= 0 { ak } else { ak * pow2((-(j + k)) as nat) };
    let den2 = if j + k >= 0 { b * pow2((j + k) as nat) } else { b };
    let p: int;
    if j >= 0 {
        let pj = pow2(j as nat);
        vstd::arithmetic::power2::lemma_pow2_adds(j as nat, k);
        assert(pow2((j + k) as nat) == pj * pk);
        p = pk as int;
        assert(den2 == den * p) by (nonlinear_arith)
            requires den2 == b * (pj * pk), den == b * pj, p == pk;
        assert(num2 == num * p);
    } else if j + k >= 0 {
        let pm = pow2((-j) as nat);
        let pjk = pow2((j + k) as nat);
        vstd::arithmetic::power2::lemma_pow2_adds((-j) as nat, (j + k) as nat);
        assert(pk == pm * pjk);
        lemma_pow2_pos((j + k) as nat);
        p = pjk as int;
        assert(num2 == num * p) by (nonlinear_arith)
            requires num2 == a * pk, num == a * pm, pk == pm * pjk, p == pjk;
        assert(den2 == den * p);
    } else {
        let pm = pow2((-j) as nat);
        let pjk = pow2((-(j + k)) as nat);
        vstd::arithmetic::power2::lemma_pow2_adds(k, (-(j + k)) as nat);
        assert(pm == pk * pjk);
        p = 1;
        assert(num2 == num) by (nonlinear_arith)
            requires num2 == (a * pk) * pjk, num == a * pm, pm == pk * pjk;
        assert(num2 == num * p);
        assert(den2 == den * p);
    }
    lemma_pow2_pos(j as nat);
    lemma_pow2_pos((-j) as nat);
    assert(p > 0);
    assert(den > 0) by (nonlinear_arith)
        requires den == b * pow2(j as nat) || den == b, b >= 1, pow2(j as nat) > 0;
    assert(num >= 0) by (nonlinear_arith)
        requires num == a || num == a * pow2((-j) as nat), a > 0, pow2((-j) as nat) > 0;
    assert(in_binade(ak, b, j + k)) by {
        assert(lo * den <= num < hi * den);
        assert(lo * (den * p) <= num * p < hi * (den * p)) by (nonlinear_arith)
            requires lo * den <= num < hi * den, p > 0;
        assert(lo * den2 <= num2 < hi * den2);
    }
    lemma_binade_unique(ak, b, j + k);
    lemma_div_scale(num, den, p);
    let r = num % den;
    assert(2 * (r * p) > den * p <==> 2 * r > den) by (nonlinear_arith)
        requires p > 0;
    assert(2 * (r * p) == den * p <==> 2 * r == den) by (nonlinear_arith)
        requires p > 0;
}

/// At one scale, a larger operand never rounds to a smaller value.
proof fn lemma_nearest_monotone_at_scale(a1: int, a2: int, b: int, s: int)
    requires
        b >= 1,
        SIGNIFICAND_MIN * b <= a1 <= a2,
    ensures
        value_le(nearest(a1, b, s), nearest(a2, b, s)),
{
    let lo = SIGNIFICAND_MIN as int;
    let hi = SIGNIFICAND_END as int;
    lemma2_to64();
    assert(pow2(0) == 1 && pow2(1) == 2);
    lemma_binade_holds(a1, b);
    lemma_binade_holds(a2, b);
    let j1 = binade(a1, b);
    let j2 = binade(a2, b);
    if j1 < 0 {
        let p = pow2((-j1) as nat);
        lemma_pow2_at_least_two((-j1) as nat);
        assert(2 * a1 <= a1 * p) by (nonlinear_arith)
            requires a1 > 0, p >= 2;
        assert(false);
    }
    if j2 < 0 {
        let p = pow2((-j2) as nat);
        lemma_pow2_at_least_two((-j2) as nat);
        assert(2 * a2 <= a2 * p) by (nonlinear_arith)
            requires a2 > 0, p >= 2;
        assert(false);
    }
    let p1 = pow2(j1 as nat);
    let p2 = pow2(j2 as nat);
    if j1 > j2 {
        vstd::arithmetic::power2::lemma_pow2_adds(j2 as nat, (j1 - j2) as nat);
        lemma_pow2_at_least_two((j1 - j2) as nat);
        let pd = pow2((j1 - j2) as nat);
        lemma_pow2_pos(j2 as nat);
        assert(hi * (b * p2) <= lo * (b * p1)) by (nonlinear_arith)
            requires p1 == p2 * pd, pd >= 2, hi == 2 * lo, lo > 0, b > 0, p2 > 0;
        assert(false);
    }
    lemma_pow2_pos(j1 as nat);
    lemma_pow2_pos(j2 as nat);
    let den1 = b * p1;
    let den2 = b * p2;
    assert(den1 > 0 && den2 > 0) by (nonlinear_arith)
        requires den1 == b * p1, den2 == b * p2, b >= 1, p1 > 0, p2 > 0;
    let q1 = a1 / den1;
    let r1 = a1 % den1;
    let q2 = a2 / den2;
    let r2 = a2 % den2;
    vstd::arithmetic::div_mod::lemma_fundamental_div_mod(a1, den1);
    vstd::arithmetic::div_mod::lemma_mod_pos_bound(a1, den1);
    vstd::arithmetic::div_mod::lemma_fundamental_div_mod(a2, den2);
    vstd::arithmetic::div_mod::lemma_mod_pos_bound(a2, den2);
    assert(lo <= q1 < hi) by (nonlinear_arith)
        requires lo * den1 <= a1 < hi * den1, a1 == den1 * q1 + r1, 0 <= r1 < den1, den1 > 0;
    assert(lo <= q2 < hi) by (nonlinear_arith)
        requires lo * den2 <= a2 < hi * den2, a2 == den2 * q2 + r2, 0 <= r2 < den2, den2 > 0;
    let m1 = if 2 * r1 > den1 || (2 * r1 == den1 && q1 % 2 == 1) { q1 + 1 } else { q1 };
    let m2 = if 2 * r2 > den2 || (2 * r2 == den2 && q2 % 2 == 1) { q2 + 1 } else { q2 };
    let x = nearest(a1, b, s);
    let y = nearest(a2, b, s);
    let t = s + j1;
    let pd = pow2((j2 - j1) as nat);
    lemma_pow2_pos((j2 - j1) as nat);
    // Both results, scaled to 2^t, are their unnormalised significands.
    assert(scaled(x, t) == m1) by {
        if m1 == hi {
            assert(x == (lo, t + 1));
            assert(scaled(x, t) == lo * pow2(1));
        } else {
            assert(scaled(x, t) == m1 * pow2(0));
        }
    }
    assert(scaled(y, t) == m2 * pd) by {
        if m2 == hi {
            lemma_pow2_unfold((j2 - j1 + 1) as nat);
            assert(scaled(y, t) == lo * pow2((j2 - j1 + 1) as nat));
            assert(lo * pow2((j2 - j1 + 1) as nat) == hi * pd) by (nonlinear_arith)
                requires pow2((j2 - j1 + 1) as nat) == 2 * pd, hi == 2 * lo;
        }
    }
    if j1 == j2 {
        assert(pd == 1);
        vstd::arithmetic::div_mod::lemma_div_is_ordered(a1, a2, den1);
        if q1 == q2 {
            assert(r1 <= r2);
        }
        assert(m1 <= m2);
    } else {
        lemma_pow2_at_least_two((j2 - j1) as nat);
        assert(m1 <= hi);
        assert(m2 >= lo);
        assert(m2 * pd >= lo * pd) by (nonlinear_arith)
            requires m2 >= lo, pd >= 2;
        assert(lo * pd >= 2 * lo) by (nonlinear_arith)
            requires pd >= 2, lo > 0;
        assert(m1 <= m2 * pd);
    }
    lemma_value_le_at(x, y, t);
}

/// Comparing at any common scale decides `value_le`.
proof fn lemma_value_le_at(x: (int, int), y: (int, int), t: int)
    requires
        t <= x.1,
        t <= y.1,
    ensures
        value_le(x, y) <==> scaled(x, t) <= scaled(y, t),
{
    let t0 = if x.1 <= y.1 { x.1 } else { y.1 };
    let c = pow2((t0 - t) as nat);
    lemma_pow2_pos((t0 - t) as nat);
    vstd::arithmetic::power2::lemma_pow2_adds((x.1 - t0) as nat, (t0 - t) as nat);
    vstd::arithmetic::power2::lemma_pow2_adds((y.1 - t0) as nat, (t0 - t) as nat);
    let px = pow2((x.1 - t0) as nat);
    let py = pow2((y.1 - t0) as nat);
    assert(scaled(x, t) == scaled(x, t0) * c) by (nonlinear_arith)
        requires scaled(x, t) == x.0 * (px * c), scaled(x, t0) == x.0 * px;
    assert(scaled(y, t) == scaled(y, t0) * c) by (nonlinear_arith)
        requires scaled(y, t) == y.0 * (py * c), scaled(y, t0) == y.0 * py;
    assert(scaled(x, t0) <= scaled(y, t0) <==> scaled(x, t0) * c <= scaled(y, t0) * c) by (nonlinear_arith)
        requires c > 0;
}

/// Rounding never reverses the order of two non-negative operands.
pub proof fn lemma_nearest_monotone(a1: int, s1: int, a2: int, s2: int, b: int)
    requires
        a1 >= 0,
        a2 >= 0,
        b >= 1,
        b <= 1000,
        value_le((a1, s1), (a2, s2)),
    ensures
        value_le(nearest(a1, b, s1), nearest(a2, b, s2)),
{
    let x = nearest(a1, b, s1);
    let y = nearest(a2, b, s2);
    lemma_nearest_bounds(a2, b, s2);
    if a1 == 0 {
        assert(x == (0int, 0int));
        let t = if x.1 <= y.1 { x.1 } else { y.1 };
        lemma_pow2_pos((y.1 - t) as nat);
        assert(scaled(y, t) >= 0) by (nonlinear_arith)
            requires y.0 >= 0, scaled(y, t) == y.0 * pow2((y.1 - t) as nat), pow2((y.1 - t) as nat) > 0;
        assert(scaled(x, t) == 0) by (nonlinear_arith)
            requires x.0 == 0, scaled(x, t) == x.0 * pow2((x.1 - t) as nat);
        return;
    }
    let t = if s1 <= s2 { s1 } else { s2 };
    let k1 = (s1 - t) as nat;
    let k2 = (s2 - t) as nat;
    let big = 62nat;
    let p1 = pow2(k1);
    let p2 = pow2(k2);
    let pb = pow2(big);
    lemma2_to64_rest();
    let c1 = a1 * p1;
    let c2 = a2 * p2;
    assert(c1 <= c2);
    lemma_pow2_pos(k1);
    lemma_pow2_pos(k2);
    assert(c1 >= 1) by (nonlinear_arith)
        requires a1 >= 1, p1 >= 1, c1 == a1 * p1;
    assert(c2 >= 0) by (nonlinear_arith)
        requires a2 >= 0, p2 >= 1, c2 == a2 * p2;
    lemma_nearest_shift(a1, b, s1, k1);
    lemma_nearest_shift(a2, b, s2, k2);
    lemma_nearest_shift(c1, b, t, big);
    lemma_nearest_shift(c2, b, t, big);
    assert(SIGNIFICAND_MIN * b <= c1 * pb <= c2 * pb) by (nonlinear_arith)
        requires c1 >= 1, c1 <= c2, b <= 1000, pb == 0x4000_0000_0000_0000;
    lemma_nearest_monotone_at_scale(c1 * pb, c2 * pb, b, t - big);
}

/// Converting a larger integer never gives a smaller binary64.
pub proof fn lemma_from_integer_monotone(n1: int, n2: int)
    requires
        0 <= n1 <= n2,
    ensures
        value_le(from_integer(n1), from_integer(n2)),
{
    lemma2_to64();
    assert(scaled((n1, 0), 0) == n1 * pow2(0));
    assert(scaled((n2, 0), 0) == n2 * pow2(0));
    lemma_nearest_monotone(n1, 0, n2, 0, 1);
}

/// The binary64 product never decreases when its factors do not.
pub proof fn lemma_product_monotone(x1: (int, int), x2: (int, int), z1: (int, int), z2: (int, int))
    requires
        x1.0 >= 0,
        x2.0 >= 0,
        z1.0 >= 0,
        z2.0 >= 0,
        value_le(x1, x2),
        value_le(z1, z2),
    ensures
        value_le(product(x1, z1), product(x2, z2)),
{
    let tx = if x1.1 <= x2.1 { x1.1 } else { x2.1 };
    let tz = if z1.1 <= z2.1 { z1.1 } else { z2.1 };
    let a1 = x1.0 * z1.0;
    let a2 = x2.0 * z2.0;
    assert(a1 >= 0 && a2 >= 0) by (nonlinear_arith)
        requires x1.0 >= 0, x2.0 >= 0, z1.0 >= 0, z2.0 >= 0, a1 == x1.0 * z1.0, a2 == x2.0 * z2.0;
    let t = tx + tz;
    assert forall|x: (int, int), z: (int, int)| x.1 >= tx && z.1 >= tz implies
        #[trigger] scaled((x.0 * z.0, x.1 + z.1), tx + tz) == scaled(x, tx) * scaled(z, tz) by {
        let px = pow2((x.1 - tx) as nat);
        let pz = pow2((z.1 - tz) as nat);
        vstd::arithmetic::power2::lemma_pow2_adds((x.1 - tx) as nat, (z.1 - tz) as nat);
        assert((x.0 * z.0) * (px * pz) == (x.0 * px) * (z.0 * pz)) by (nonlinear_arith);
    }
    let sx1 = scaled(x1, tx);
    let sx2 = scaled(x2, tx);
    let sz1 = scaled(z1, tz);
    let sz2 = scaled(z2, tz);
    lemma_pow2_pos((x1.1 - tx) as nat);
    lemma_pow2_pos((z1.1 - tz) as nat);
    assert(sx1 >= 0) by (nonlinear_arith)
        requires sx1 == x1.0 * pow2((x1.1 - tx) as nat), x1.0 >= 0, pow2((x1.1 - tx) as nat) > 0;
    assert(sz1 >= 0) by (nonlinear_arith)
        requires sz1 == z1.0 * pow2((z1.1 - tz) as nat), z1.0 >= 0, pow2((z1.1 - tz) as nat) > 0;
    assert(sx1 * sz1 <= sx2 * sz2) by (nonlinear_arith)
        requires 0 <= sx1 <= sx2, 0 <= sz1 <= sz2;
    assert(scaled((a1, x1.1 + z1.1), t) == sx1 * sz1);
    assert(scaled((a2, x2.1 + z2.1), t) == sx2 * sz2);
    lemma_value_le_at((a1, x1.1 + z1.1), (a2, x2.1 + z2.1), t);
    lemma_nearest_monotone(a1, x1.1 + z1.1, a2, x2.1 + z2.1, 1);
}

/// The binary64 quotient by a positive integer keeps the order.
pub proof fn lemma_quotient_monotone(x1: (int, int), x2: (int, int), c: int)
    requires
        x1.0 >= 0,
        x2.0 >= 0,
        1 <= c <= 1000,
        value_le(x1, x2),
    ensures
        value_le(quotient(x1, c), quotient(x2, c)),
{
    lemma_nearest_monotone(x1.0, x1.1, x2.0, x2.1, c);
}

/// The saturating conversion to `u64` keeps the order.
pub proof fn lemma_to_u64_monotone(x1: (int, int), x2: (int, int))
    requires
        0 <= x1.0 < SIGNIFICAND_END,
        0 <= x2.0 < SIGNIFICAND_END,
        value_le(x1, x2),
    ensures
        to_u64_saturating(x1) <= to_u64_saturating(x2),
{
    let t0 = if x1.1 <= x2.1 { x1.1 } else { x2.1 };
    let t = if t0 <= 0 { t0 } else { 0 };
    let d = pow2((-t) as nat) as int;
    lemma_pow2_pos((-t) as nat);
    assert forall|x: (int, int)| 0 <= x.0 < SIGNIFICAND_END && x.1 >= t implies {
        let v = #[trigger] scaled(x, t) / d;
        to_u64_saturating(x) == if v > u64::MAX { u64::MAX as int } else { v }
    } by {
        if x.1 >= 0 {
            let v = x.0 * pow2(x.1 as nat);
            vstd::arithmetic::power2::lemma_pow2_adds(x.1 as nat, (-t) as nat);
            assert(scaled(x, t) == v * d) by (nonlinear_arith)
                requires scaled(x, t) == x.0 * pow2((x.1 - t) as nat), pow2((x.1 - t) as nat) == pow2(x.1 as nat) * d,
                    v == x.0 * pow2(x.1 as nat);
            lemma_div_scale(v, 1, d);
            assert(v * d == (v * d) / 1 * 1);
        } else {
            let e = pow2((-x.1) as nat) as int;
            let p = pow2((x.1 - t) as nat) as int;
            lemma_pow2_pos((-x.1) as nat);
            lemma_pow2_pos((x.1 - t) as nat);
            vstd::arithmetic::power2::lemma_pow2_adds((x.1 - t) as nat, (-x.1) as nat);
            assert(d == e * p) by (nonlinear_arith)
                requires d == p * e;
            lemma_div_scale(x.0, e, p);
            assert(scaled(x, t) / d == x.0 / e);
            vstd::arithmetic::div_mod::lemma_fundamental_div_mod(x.0, e);
            vstd::arithmetic::div_mod::lemma_mod_pos_bound(x.0, e);
            let q = x.0 / e;
            assert(q <= x.0) by (nonlinear_arith)
                requires x.0 == e * q + x.0 % e, 0 <= x.0 % e, e >= 1, x.0 >= 0;
            assert(q >= 0) by (nonlinear_arith)
                requires x.0 == e * q + x.0 % e, x.0 % e < e, e >= 1, x.0 >= 0;
        }
    }
    lemma_value_le_at(x1, x2, t);
    vstd::arithmetic::div_mod::lemma_div_is_ordered(scaled(x1, t), scaled(x2, t), d as int);
    assert(to_u64_saturating(x1) == {
        let v = scaled(x1, t) / d;
        if v > u64::MAX { u64::MAX as int } else { v }
    });
    assert(to_u64_saturating(x2) == {
        let v = scaled(x2, t) / d;
        if v > u64::MAX { u64::MAX as int } else { v }
    });
}

/// 2^k.
fn power_of_two(k: u32) -> (p: u128)
    requires
        k <= 64,
    ensures
        p == pow2(k as nat),
{
    proof { lemma2_to64(); }
    let mut p: u128 = 1;
    let mut i: u32 = 0;
    while i < k
        invariant
            i <= k <= 64,
            p == pow2(i as nat),
            pow2(64) == 0x1_0000_0000_0000_0000,
        decreases k - i,
    {
        proof { lemma_pow2_strictly_increases(i as nat, 64); }
        p = p * 2;
        i = i + 1;
        proof { lemma_pow2_unfold(i as nat); }
    }
    p
}

/// Rounds `a / b * 2^s` to the nearest binary64.
pub fn round_to_binary64(a: u128, b: u128, s: i64) -> (r: (u64, i64))
    requires
        a < 0x4000_0000_0000_0000_0000_0000_0000,
        1 <= b <= 1000,
        -1000 <= s <= 1000,
    ensures
        (r.0 as int, r.1 as int) == nearest(a as int, b as int, s as int),
        r.0 < SIGNIFICAND_END,
        r == (0u64, 0i64) || s - 64 <= r.1 <= s + 64,
{
    if a == 0 {
        return (0, 0);
    }
    proof { lemma2_to64(); }
    proof { lemma2_to64_rest(); }
    let lo: u128 = 0x10_0000_0000_0000;
    let mut j: i64 = 0;
    let mut p: u128 = 1;
    if a >= 2 * lo * b {
        while a >= 2 * lo * (b * p)
            invariant
                1 <= b <= 1000,
                0 < a < 0x4000_0000_0000_0000_0000_0000_0000,
                lo == 0x10_0000_0000_0000,
                0 <= j,
                j + 1 <= p <= 0x400_0000_0000_0000,
                p == pow2(j as nat),
                lo * (b * p) <= a,
            decreases 0x400_0000_0000_0000 - p,
        {
            assert(p < 0x200_0000_0000_0000) by (nonlinear_arith)
                requires 2 * lo * (b * p) <= a, a < 0x4000_0000_0000_0000_0000_0000_0000, b >= 1,
                    lo == 0x10_0000_0000_0000;
            let ghost old_p = p;
            p = p * 2;
            j = j + 1;
            proof {
                lemma_pow2_unfold(j as nat);
            }
            assert(lo * (b * p) <= a) by (nonlinear_arith)
                requires 2 * lo * (b * old_p) <= a, p == 2 * old_p;
        }
        if j > 58 {
            proof { lemma_pow2_strictly_increases(58, j as nat); }
        }
    } else if a < lo * b {
        while a * p < lo * b
            invariant
                1 <= b <= 1000,
                0 < a,
                lo == 0x10_0000_0000_0000,
                j <= 0,
                -j + 1 <= p <= 0x8000_0000_0000_0000,
                p == pow2((-j) as nat),
                a * p < 2 * lo * b,
            decreases 0x8000_0000_0000_0000 - p,
        {
            assert(p < 0x4000_0000_0000_0000) by (nonlinear_arith)
                requires a * p < lo * b, a >= 1, b <= 1000, lo == 0x10_0000_0000_0000;
            let ghost old_p = p;
            p = p * 2;
            j = j - 1;
            proof {
                lemma_pow2_unfold((-j) as nat);
            }
            assert(a * p < 2 * lo * b) by (nonlinear_arith)
                requires a * old_p < lo * b, p == 2 * old_p;
        }
        if -j > 63 {
            proof { lemma_pow2_strictly_increases(63, (-j) as nat); }
        }
    }
    proof {
        assert(in_binade(a as int, b as int, j as int));
        lemma_binade_unique(a as int, b as int, j as int);
    }
    let num: u128 = if j >= 0 { a } else { a * p };
    let den: u128 = if j >= 0 { b * p } else { b };
    let q = num / den;
    let r = num % den;
    assert(q < 2 * lo) by (nonlinear_arith)
        requires num < 2 * lo * den, q == num / den, den > 0;
    let m: u128 = if 2 * r > den || (2 * r == den && q % 2 == 1) { q + 1 } else { q };
    if m == 2 * lo {
        (lo as u64, s + j + 1)
    } else {
        (m as u64, s + j)
    }
}

/// Converts a non-negative binary64 to `u64`, dropping the fraction and
/// saturating at `u64::MAX`.
pub fn binary64_to_u64(m: u64, e: i64) -> (t: u64)
    requires
        m < SIGNIFICAND_END,
        -2000 <= e <= 2000,
    ensures
        t == to_u64_saturating((m as int, e as int)),
{
    proof { lemma2_to64(); }
    if e >= 0 {
        if e > 64 {
            proof { lemma_pow2_strictly_increases(64, e as nat); }
            if m == 0 {
                return 0;
            }
            let ghost p = pow2(e as nat);
            assert(m * p >= p) by (nonlinear_arith)
                requires m >= 1, p >= 0;
            return u64::MAX;
        }
        let p = power_of_two(e as u32);
        if e < 64 {
            proof { lemma_pow2_strictly_increases(e as nat, 64); }
        }
        assert(m * p <= 0x20_0000_0000_0000 * 0x1_0000_0000_0000_0000) by (nonlinear_arith)
            requires m < 0x20_0000_0000_0000, p <= 0x1_0000_0000_0000_0000;
        let v = m as u128 * p;
        if v > u64::MAX as u128 {
            u64::MAX
        } else {
            v as u64
        }
    } else {
        let k = -e;
        if k >= 64 {
            if k > 64 {
                proof { lemma_pow2_strictly_increases(64, k as nat); }
            }
            let ghost p = pow2(k as nat);
            proof { vstd::arithmetic::div_mod::lemma_basic_div(m as int, p as int); }
            return 0;
        }
        let p = power_of_two(k as u32);
        proof { lemma_pow2_pos(k as nat); }
        (m as u128 / p) as u64
    }
}

} // verus!
