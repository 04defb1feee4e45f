//! The square root of a binary64 number.
use vstd::arithmetic::div_mod::*;
use vstd::arithmetic::power2::*;
use vstd::prelude::*;

use super::arithmetic::normalize;
use super::laws::{rounded_number_has_units, rounding_keeps_short_counts};
use super::rounding::{
    lemma_excess_bits, lemma_excess_bits_is, lemma_of_rounded_units, lemma_pow2_monotone,
};
use super::{excess_bits, root_floor, round_root, Binary64, HIDDEN_BIT, INFINITE, QUIET_NAN, SIGN_BIT};

verus! {

/// Every number has an integer part of its root.
proof fn lemma_root_exists(n: nat) -> (r: nat)
    ensures
        r * r <= n < (r + 1) * (r + 1),
    decreases n,
{
    let r: nat;
    if n == 0 {
        r = 0;
        assert((r + 1) * (r + 1) == 1) by (nonlinear_arith)
            requires
                r == 0,
        ;
    } else {
        let h = lemma_root_exists(n / 4);
        let even = 2 * h;
        let odd = (2 * h + 1) as nat;
        assert((odd + 1) * (odd + 1) == 4 * ((h + 1) * (h + 1)) && even * even == 4 * (h * h)
            && odd * odd == (even + 1) * (even + 1)) by (nonlinear_arith)
            requires
                even == 2 * h,
                odd == 2 * h + 1,
        ;
        r = if odd * odd <= n {
            odd
        } else {
            even
        };
    }
    assert(r * r <= n);
    assert(n < (r + 1) * (r + 1));
    r
}

/// And only one.
proof fn lemma_root_unique(n: nat, r: nat)
    requires
        r * r <= n < (r + 1) * (r + 1),
    ensures
        root_floor(n) == r,
{
    let f = root_floor(n);
    assert(f * f <= n < (f + 1) * (f + 1));
    assert(f == r) by (nonlinear_arith)
        requires
            r * r <= n < (r + 1) * (r + 1),
            f * f <= n < (f + 1) * (f + 1),
    ;
}

/// The root of `m * 4^h`, rounded: it has the bits of the integer part of the
/// root of `m`, of which the last two decide the rounding.
proof fn lemma_round_root(m: nat, h: nat, r: nat)
    requires
        r * r <= m < (r + 1) * (r + 1),
        4 * HIDDEN_BIT <= r < 8 * HIDDEN_BIT,
    ensures
        round_root(m * (pow2(h) * pow2(h))) == (if r % 4 < 2 {
            r / 4
        } else {
            r / 4 + 1
        }) * pow2(h + 2),
{
    let p = pow2(h);
    let n = m * (p * p);
    let f = lemma_root_exists(n);
    lemma_root_unique(n, f);
    lemma_pow2_pos(h);
    lemma2_to64();
    lemma_pow2_adds(h, 2);
    let k = pow2(h + 2);
    assert(r * p <= f && f < (r + 1) * p) by {
        assert((r * p) * (r * p) <= n) by (nonlinear_arith)
            requires
                n == m * (p * p),
                r * r <= m,
        ;
        assert(n < ((r + 1) * p) * ((r + 1) * p)) by (nonlinear_arith)
            requires
                n == m * (p * p),
                m < (r + 1) * (r + 1),
                p > 0,
        ;
        let a = r * p;
        let b = (r + 1) * p;
        assert(a <= f) by (nonlinear_arith)
            requires
                a * a <= n,
                n < (f + 1) * (f + 1),
        ;
        assert(f < b) by (nonlinear_arith)
            requires
                f * f <= n,
                n < b * b,
        ;
    }
    assert(HIDDEN_BIT * k <= f && f < 2 * HIDDEN_BIT * k) by (nonlinear_arith)
        requires
            k == p * 4,
            r * p <= f,
            f < (r + 1) * p,
            4 * HIDDEN_BIT <= r < 8 * HIDDEN_BIT,
            p > 0,
    ;
    lemma_excess_bits_is(f, h + 2, HIDDEN_BIT as nat);
    let q = f / k;
    let w = r / 4;
    assert(q == w) by {
        let rest = f - w * k;
        assert(0 <= rest < k) by (nonlinear_arith)
            requires
                rest == f - w * k,
                k == p * 4,
                r * p <= f,
                f < (r + 1) * p,
                4 * w <= r,
                r + 1 <= 4 * w + 4,
                p > 0,
        ;
        lemma_fundamental_div_mod_converse(f as int, k as int, w as int, rest);
    }
    let c = (2 * w + 1) * k;
    let d = 4 * w + 2;
    assert(c * c == 4 * ((d * d) * (p * p))) by (nonlinear_arith)
        requires
            c == (2 * w + 1) * k,
            k == p * 4,
            d == 4 * w + 2,
    ;
    assert(p * p > 0) by (nonlinear_arith)
        requires
            p > 0,
    ;
    if r % 4 < 2 {
        assert(m < d * d) by (nonlinear_arith)
            requires
                m < (r + 1) * (r + 1),
                r + 1 <= d,
        ;
        assert(4 * n < c * c) by (nonlinear_arith)
            requires
                m < d * d,
                n == m * (p * p),
                c * c == 4 * ((d * d) * (p * p)),
                p * p > 0,
        ;
    } else {
        assert(m >= d * d) by (nonlinear_arith)
            requires
                m >= r * r,
                r >= d,
        ;
        assert(4 * n >= c * c) by (nonlinear_arith)
            requires
                m >= d * d,
                n == m * (p * p),
                c * c == 4 * ((d * d) * (p * p)),
                p * p > 0,
        ;
    }
}

/// The root of a number is not rounded below a short count whose square is not
/// above the number.
pub proof fn root_keeps_order(n: nat, v: nat, x: nat)
    requires
        v < 2 * HIDDEN_BIT,
        (v * pow2(x)) * (v * pow2(x)) <= n,
    ensures
        ({
            let r = Binary64::of_units(false, round_root(n));
            &&& !r.nan()
            &&& !r.negative()
            &&& r.infinite() || r.abs_units() >= v * pow2(x)
            &&& r.finite() ==> r.abs_units() == round_root(n)
            &&& r.infinite() <==> round_root(n) >= pow2(2098)
        }),
{
    let s = v * pow2(x);
    let h = HIDDEN_BIT as nat;
    let f = lemma_root_exists(n);
    lemma_root_unique(n, f);
    assert(s <= f) by (nonlinear_arith)
        requires
            s * s <= n,
            n < (f + 1) * (f + 1),
    ;
    let e = excess_bits(f, h);
    let k = pow2(e);
    let q = f / k;
    lemma_pow2_pos(e);
    lemma_pow2_pos(x);
    lemma_excess_bits(f, h);
    lemma_fundamental_div_mod(f as int, k as int);
    lemma_mod_bound(f as int, k as int);
    assert(q * k >= s) by {
        if e <= x {
            let w = v * pow2((x - e) as nat);
            lemma_pow2_adds((x - e) as nat, e);
            assert(s == w * k) by (nonlinear_arith)
                requires
                    s == v * pow2(x),
                    w == v * pow2((x - e) as nat),
                    pow2(x) == pow2((x - e) as nat) * k,
            ;
            lemma_div_is_ordered(s as int, f as int, k as int);
            lemma_div_by_multiple(w as int, k as int);
            assert(q * k >= w * k) by (nonlinear_arith)
                requires
                    q >= w,
            ;
        } else {
            lemma_pow2_unfold((x + 1) as nat);
            lemma_pow2_monotone((x + 1) as nat, e);
            assert(q * k >= v * pow2(x)) by (nonlinear_arith)
                requires
                    q >= h,
                    v < 2 * h,
                    k >= 2 * pow2(x),
            ;
        }
    }
    let u = round_root(n);
    let c = if u == q * k {
        q
    } else {
        (q + 1) as nat
    };
    assert((q + 1) * k >= q * k) by (nonlinear_arith);
    assert(u == c * k);
    let (a, y) = if c == 2 * h {
        (h, (e + 1) as nat)
    } else {
        (c, e)
    };
    lemma_pow2_unfold((e + 1) as nat);
    assert(u == a * pow2(y)) by {
        if c == 2 * h {
            assert(c * k == h * (2 * k)) by (nonlinear_arith)
                requires
                    c == 2 * h,
            ;
        }
    }
    rounding_keeps_short_counts(a, y, 1);
    assert((a * pow2(y)) * 1 == u);
    rounded_number_has_units(false, u, 1);
}

/// The root of a number is not rounded above a short count whose square is not
/// below the number.
pub proof fn root_keeps_bound(n: nat, v: nat, x: nat)
    requires
        v < 2 * HIDDEN_BIT,
        n <= (v * pow2(x)) * (v * pow2(x)),
    ensures
        round_root(n) <= v * pow2(x),
{
    let s = v * pow2(x);
    let h = HIDDEN_BIT as nat;
    let f = lemma_root_exists(n);
    lemma_root_unique(n, f);
    assert(f <= s) by (nonlinear_arith)
        requires
            f * f <= n,
            n <= s * s,
    ;
    let e = excess_bits(f, h);
    let k = pow2(e);
    let q = f / k;
    lemma_pow2_pos(e);
    lemma_pow2_pos(x);
    lemma_excess_bits(f, h);
    lemma_fundamental_div_mod(f as int, k as int);
    lemma_mod_bound(f as int, k as int);
    let rest = f % k;
    if e > x {
        lemma_pow2_unfold((x + 1) as nat);
        lemma_pow2_monotone((x + 1) as nat, e);
        assert(f >= h * k) by (nonlinear_arith)
            requires
                f == k * q + rest,
                rest >= 0,
                q >= h,
                k > 0,
        ;
        assert(s < h * k) by (nonlinear_arith)
            requires
                s == v * pow2(x),
                v < 2 * h,
                k >= 2 * pow2(x),
                pow2(x) > 0,
        ;
    }
    let w = v * pow2((x - e) as nat);
    lemma_pow2_adds((x - e) as nat, e);
    assert(s == w * k) by (nonlinear_arith)
        requires
            s == v * pow2(x),
            w == v * pow2((x - e) as nat),
            pow2(x) == pow2((x - e) as nat) * k,
    ;
    if f == s {
        lemma_div_by_multiple(w as int, k as int);
        let m = (2 * q + 1) * k;
        assert(m == 2 * s + k) by (nonlinear_arith)
            requires
                m == (2 * q + 1) * k,
                s == q * k,
        ;
        assert(4 * n < m * m) by (nonlinear_arith)
            requires
                m == 2 * s + k,
                n <= s * s,
                k > 0,
                s >= 0,
        ;
    } else {
        assert(q < w) by (nonlinear_arith)
            requires
                f == k * q + rest,
                rest >= 0,
                f < w * k,
                k > 0,
        ;
        assert((q + 1) * k <= w * k) by (nonlinear_arith)
            requires
                q + 1 <= w,
        ;
        assert(q * k <= (q + 1) * k) by (nonlinear_arith);
    }
}

/// The integer part of the root of a number of 109 or 110 bits.
fn integer_root(m: u128) -> (r: u64)
    requires
        m < 0x4000_0000_0000_0000_0000_0000_0000,
        m >= 0x1000_0000_0000_0000_0000_0000_0000,
    ensures
        r as nat * r as nat <= m < (r as nat + 1) * (r as nat + 1),
        0x40_0000_0000_0000 <= r < 0x80_0000_0000_0000,
{
    let mut low: u64 = 0x40_0000_0000_0000;
    let mut high: u64 = 0x80_0000_0000_0000;
    while high - low > 1
        invariant
            0x40_0000_0000_0000 <= low < high <= 0x80_0000_0000_0000,
            low * low <= m < high * high,
        decreases high - low,
    {
        let mid: u64 = low + (high - low) / 2;
        assert(mid * mid <= 0x80_0000_0000_0000 * 0x80_0000_0000_0000) by (nonlinear_arith)
            requires
                0 <= mid <= 0x80_0000_0000_0000,
        ;
        if mid as u128 * mid as u128 <= m {
            low = mid;
        } else {
            high = mid;
        }
    }
    low
}

impl Binary64 {
    /// The square root.
    pub fn square_root(self) -> (r: Binary64)
        ensures
            r == self.root(),
    {
        let a: u64 = self.unsigned();
        if a > INFINITE || (self.bits >= SIGN_BIT && a != 0) {
            return Binary64 { bits: QUIET_NAN };
        }
        if a == 0 || a == INFINITE {
            return self;
        }
        let (n, e) = self.parts();
        let (s, j) = normalize(n);
        let x: i32 = e - j as i32 + 1074;
        let odd: bool = x % 2 == 1;
        let m: u128 = if odd {
            s as u128 * 0x200_0000_0000_0000
        } else {
            s as u128 * 0x100_0000_0000_0000
        };
        let h: i32 = if odd { (x - 57) / 2 } else { (x - 56) / 2 };
        let r: u64 = integer_root(m);
        let q: u64 = if r % 4 < 2 { r / 4 } else { r / 4 + 1 };
        proof {
            lemma2_to64();
            lemma2_to64_rest();
            let t: nat = if odd {
                57
            } else {
                56
            };
            let p = pow2(h as nat);
            assert(2 * h + t == x);
            lemma_pow2_adds(h as nat, h as nat);
            lemma_pow2_adds((2 * h) as nat, t);
            lemma_pow2_adds(x as nat, j as nat);
            lemma_pow2_adds(e as nat, 1074);
            assert(m == s * pow2(t));
            let units = self.abs_units() * pow2(1074);
            assert(units == m * (p * p)) by (nonlinear_arith)
                requires
                    units == (n * pow2(e as nat)) * pow2(1074),
                    pow2((e + 1074) as nat) == pow2(e as nat) * pow2(1074),
                    pow2((e + 1074) as nat) == pow2(x as nat) * pow2(j as nat),
                    pow2(x as nat) == pow2((2 * h) as nat) * pow2(t),
                    pow2((2 * h) as nat) == p * p,
                    m == s * pow2(t),
                    s == n * pow2(j as nat),
            ;
            lemma_round_root(m as nat, h as nat, r as nat);
            lemma_of_rounded_units(false, q as nat, (h + 2) as nat);
        }
        Binary64 { bits: (h + 2) as u64 * HIDDEN_BIT + q }
    }
}

/// A root is rounded by at most one part in `2^52`, and a unit, from the integer part
/// `f` of the exact one.
pub proof fn roots_are_close(n: nat, f: nat)
    requires
        f * f <= n < (f + 1) * (f + 1),
    ensures
        HIDDEN_BIT * round_root(n) <= (HIDDEN_BIT + 1) * f + HIDDEN_BIT,
        (HIDDEN_BIT - 1) * f <= HIDDEN_BIT * round_root(n),
{
    let h = HIDDEN_BIT as int;
    lemma_root_unique(n, f);
    let e = excess_bits(f, h as nat);
    let k = pow2(e) as int;
    let q = f as int / k;
    let rest = f as int % k;
    lemma_pow2_pos(e);
    lemma_excess_bits(f, h as nat);
    lemma_fundamental_div_mod(f as int, k);
    lemma_mod_bound(f as int, k);
    let r = round_root(n) as int;
    assert(r == q * k || r == (q + 1) * k);
    assert((q + 1) * k == q * k + k && q * k == k * q) by (nonlinear_arith);
    if e > 0 {
        assert(h * k <= f) by (nonlinear_arith)
            requires
                f == k * q + rest,
                rest >= 0,
                q >= h,
                k > 0,
        ;
    } else {
        lemma2_to64();
    }
    assert(h * r <= (h + 1) * f + h) by (nonlinear_arith)
        requires
            r <= f + k,
            h * k <= f || k == 1,
            h > 0,
            f >= 0,
    ;
    assert((h - 1) * f <= h * r) by (nonlinear_arith)
        requires
            r >= f - rest,
            rest < k,
            h * k <= f || k == 1,
            rest >= 0,
            h > 0,
            f >= 0,
    ;
}

} // verus!
