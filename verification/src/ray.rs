//! The ray between two block centers, and a walk along it.
use vstd::prelude::*;

use crate::block::Block;
use crate::occlusion::{let_through, stopped};
use crate::position::BlockPos;

verus! {

/// Along one axis, the point after `n / d` of the way from the center of a
/// block at `a` to that of one at `b` lies inside the layer of blocks at `c`.
pub open spec fn inside_layer(a: int, b: int, c: int, n: int, d: int) -> bool {
    2 * c * d < (2 * a + 1) * d + 2 * (b - a) * n < 2 * (c + 1) * d
}

/// The point after `n / d` of the straight way between the centers of two blocks
/// lies inside the block `p`.
pub open spec fn point_inside(from: BlockPos, to: BlockPos, p: BlockPos, n: int, d: int) -> bool {
    &&& 0 < n < d
    &&& inside_layer(from.x as int, to.x as int, p.x as int, n, d)
    &&& inside_layer(from.y as int, to.y as int, p.y as int, n, d)
    &&& inside_layer(from.z as int, to.z as int, p.z as int, n, d)
}

/// The ray between the centers of two blocks passes through the inside of `p`.
pub open spec fn passes_through(from: BlockPos, to: BlockPos, p: BlockPos) -> bool {
    exists|n: int, d: int| #[trigger] point_inside(from, to, p, n, d)
}

/// How far a walk along the ray has come on one axis. The walk leaves its
/// `k`-th layer, counted from 0, after `(2 * k + 1) / (2 * length)` of the way.
#[derive(Clone, Copy)]
struct Axis {
    start: i32,
    /// The coordinate grows along the way.
    up: bool,
    /// How many layers there are to enter.
    length: u64,
    /// How many have been entered.
    taken: u64,
}

/// `a * b`.
fn product(a: u64, b: u64) -> (r: u128)
    ensures
        r == a * b,
{
    assert(a * b <= 0xffff_ffff_ffff_ffff * 0xffff_ffff_ffff_ffff) by (nonlinear_arith)
        requires
            0 <= a <= 0xffff_ffff_ffff_ffff,
            0 <= b <= 0xffff_ffff_ffff_ffff,
    ;
    a as u128 * b as u128
}

impl Axis {
    spec fn runs(self, a: i32, b: i32) -> bool {
        &&& self.start == a
        &&& self.up == (b >= a)
        &&& self.length == if b >= a {
            b - a
        } else {
            a - b
        }
        &&& self.taken <= self.length
    }

    /// The layer in which the walk is.
    spec fn at(self) -> int {
        if self.up {
            self.start + self.taken
        } else {
            self.start - self.taken
        }
    }

    /// The walk is where the ray is directly after `n / d` of the way.
    spec fn settled(self, n: int, d: int) -> bool {
        (2 * self.taken - 1) * d <= 2 * self.length * n < (2 * self.taken + 1) * d
    }

    /// The walk is not yet to enter another layer before `n / d` of the way.
    spec fn stays_until(self, n: int, d: int) -> bool {
        2 * self.length * n <= (2 * self.taken + 1) * d
    }

    /// The walk leaves its layer after `n / d` of the way.
    spec fn leaves_at(self, n: int, d: int) -> bool {
        2 * self.length * n == (2 * self.taken + 1) * d
    }

    /// The walk leaves its layer before the one on another axis does.
    spec fn sooner(self, other: Axis) -> bool {
        (2 * self.taken + 1) * other.length < (2 * other.taken + 1) * self.length
    }

    spec fn entered(self, more: bool) -> Axis {
        Axis {
            taken: if more {
                (self.taken + 1) as u64
            } else {
                self.taken
            },
            ..self
        }
    }

    fn new(a: i32, b: i32) -> (r: Axis)
        ensures
            r.runs(a, b),
            r.taken == 0,
    {
        let up: bool = b >= a;
        let length: u64 = if up { (b as i64 - a as i64) as u64 } else { (a as i64 - b as i64) as u64 };
        Axis { start: a, up, length, taken: 0 }
    }

    fn is_sooner(self, other: Axis) -> (r: bool)
        requires
            self.taken <= 0x1_0000_0000,
            other.taken <= 0x1_0000_0000,
        ensures
            r == self.sooner(other),
    {
        product(2 * self.taken + 1, other.length) < product(2 * other.taken + 1, self.length)
    }

    /// Whether two walks leave their layers at once.
    fn is_as_soon(self, other: Axis) -> (r: bool)
        requires
            self.taken <= 0x1_0000_0000,
            other.taken <= 0x1_0000_0000,
        ensures
            r == ((2 * self.taken + 1) * other.length == (2 * other.taken + 1) * self.length),
    {
        product(2 * self.taken + 1, other.length) == product(2 * other.taken + 1, self.length)
    }

    fn enter(self, more: bool) -> (r: Axis)
        requires
            self.taken < u64::MAX,
        ensures
            r == self.entered(more),
    {
        Axis {
            start: self.start,
            up: self.up,
            length: self.length,
            taken: if more { self.taken + 1 } else { self.taken },
        }
    }

    fn coordinate(self, Ghost(a): Ghost<i32>, Ghost(b): Ghost<i32>) -> (r: i32)
        requires
            self.runs(a, b),
        ensures
            r == self.at(),
    {
        if self.up {
            (self.start as i64 + self.taken as i64) as i32
        } else {
            (self.start as i64 - self.taken as i64) as i32
        }
    }
}

/// The layers of a way upward.
proof fn lemma_layer_up(a: int, l: int, k: int, n: int, d: int)
    ensures
        inside_layer(a, a + l, a + k, n, d) <==> (2 * k - 1) * d < 2 * l * n < (2 * k + 1) * d,
{
    assert(2 * (a + k) * d == 2 * (a * d) + 2 * (k * d)) by (nonlinear_arith);
    assert(2 * (a + k + 1) * d == 2 * (a * d) + 2 * (k * d) + 2 * d) by (nonlinear_arith);
    assert((2 * a + 1) * d == 2 * (a * d) + d) by (nonlinear_arith);
    assert((2 * k - 1) * d == 2 * (k * d) - d) by (nonlinear_arith);
    assert((2 * k + 1) * d == 2 * (k * d) + d) by (nonlinear_arith);
    assert(2 * (a + l - a) * n == 2 * l * n) by (nonlinear_arith);
}

/// The layers of a way downward.
proof fn lemma_layer_down(a: int, l: int, k: int, n: int, d: int)
    ensures
        inside_layer(a, a - l, a - k, n, d) <==> (2 * k - 1) * d < 2 * l * n < (2 * k + 1) * d,
{
    assert(2 * (a - k) * d == 2 * (a * d) - 2 * (k * d)) by (nonlinear_arith);
    assert(2 * (a - k + 1) * d == 2 * (a * d) - 2 * (k * d) + 2 * d) by (nonlinear_arith);
    assert((2 * a + 1) * d == 2 * (a * d) + d) by (nonlinear_arith);
    assert((2 * k - 1) * d == 2 * (k * d) - d) by (nonlinear_arith);
    assert((2 * k + 1) * d == 2 * (k * d) + d) by (nonlinear_arith);
    assert(2 * (a - l - a) * n == -(2 * l * n)) by (nonlinear_arith);
}

/// The layers of a way, by how many were entered to reach them.
proof fn lemma_layer(axis: Axis, a: i32, b: i32, c: int, n: int, d: int)
    requires
        axis.runs(a, b),
    ensures
        ({
            let l = axis.length as int;
            let k = if axis.up {
                c - a
            } else {
                a - c
            };
            inside_layer(a as int, b as int, c, n, d) <==> (2 * k - 1) * d < 2 * l * n < (2 * k + 1)
                * d
        }),
{
    let l = axis.length as int;
    if axis.up {
        lemma_layer_up(a as int, l, c - a, n, d);
    } else {
        lemma_layer_down(a as int, l, a - c, n, d);
    }
}

/// Beyond `e / f` of the way no earlier layer is seen.
proof fn lemma_not_earlier(t: int, l: int, k: int, e: int, f: int, n: int, d: int)
    requires
        f > 0,
        d > 0,
        0 <= t <= l,
        (2 * t - 1) * f <= 2 * l * e,
        e * d < n * f,
        2 * l * n <= (2 * k + 1) * d,
    ensures
        k >= t,
{
    if k < t {
        assert(2 * l * n <= (2 * t - 1) * d) by (nonlinear_arith)
            requires
                2 * l * n <= (2 * k + 1) * d,
                k <= t - 1,
                d > 0,
        ;
        if l == 0 {
            assert((2 * t - 1) * d < 0) by (nonlinear_arith)
                requires
                    t == 0,
                    d > 0,
            ;
            assert(2 * l * n == 0) by (nonlinear_arith)
                requires
                    l == 0,
            ;
        } else {
            assert((2 * l * e) * d < (2 * l * n) * f) by (nonlinear_arith)
                requires
                    e * d < n * f,
                    l > 0,
            ;
            assert((2 * l * n) * f <= ((2 * t - 1) * d) * f) by (nonlinear_arith)
                requires
                    2 * l * n <= (2 * t - 1) * d,
                    f > 0,
            ;
            assert(((2 * t - 1) * f) * d <= (2 * l * e) * d) by (nonlinear_arith)
                requires
                    (2 * t - 1) * f <= 2 * l * e,
                    d > 0,
            ;
            assert(((2 * t - 1) * d) * f == ((2 * t - 1) * f) * d) by (nonlinear_arith);
        }
    }
}

/// Before `e / f` of the way no layer is seen that is entered later.
proof fn lemma_not_later(t: int, l: int, k: int, e: int, f: int, n: int, d: int)
    requires
        f > 0,
        d > 0,
        0 <= t,
        0 <= l,
        2 * l * e <= (2 * t + 1) * f,
        n * f < e * d,
        (2 * k - 1) * d <= 2 * l * n,
    ensures
        k <= t,
{
    if k > t {
        assert((2 * t + 1) * d <= 2 * l * n) by (nonlinear_arith)
            requires
                (2 * k - 1) * d <= 2 * l * n,
                k >= t + 1,
                d > 0,
        ;
        assert((2 * t + 1) * d > 0) by (nonlinear_arith)
            requires
                t >= 0,
                d > 0,
        ;
        if l == 0 {
            assert(2 * l * n == 0) by (nonlinear_arith)
                requires
                    l == 0,
            ;
        }
        assert(((2 * t + 1) * d) * f <= (2 * l * n) * f) by (nonlinear_arith)
            requires
                (2 * t + 1) * d <= 2 * l * n,
                f > 0,
        ;
        assert(((2 * t + 1) * d) * f == ((2 * t + 1) * f) * d) by (nonlinear_arith);
        assert((2 * l * n) * f < (2 * l * e) * d) by (nonlinear_arith)
            requires
                n * f < e * d,
                l > 0,
        ;
        assert((2 * l * e) * d <= ((2 * t + 1) * f) * d) by (nonlinear_arith)
            requires
                2 * l * e <= (2 * t + 1) * f,
                d > 0,
        ;
    }
}

/// Between the place to which the walk has come and `g / h` of the way, before
/// which it stays, the ray is in the layer of the walk.
proof fn lemma_stays(
    axis: Axis,
    a: i32,
    b: i32,
    e: int,
    f: int,
    g: int,
    h: int,
    c: int,
    n: int,
    d: int,
)
    requires
        axis.runs(a, b),
        f > 0,
        h > 0,
        d > 0,
        axis.settled(e, f),
        axis.stays_until(g, h),
        e * d < n * f,
        n * h < g * d,
        inside_layer(a as int, b as int, c, n, d),
    ensures
        c == axis.at(),
{
    let k = if axis.up {
        c - a
    } else {
        a - c
    };
    lemma_layer(axis, a, b, c, n, d);
    lemma_not_earlier(axis.taken as int, axis.length as int, k, e, f, n, d);
    lemma_not_later(axis.taken as int, axis.length as int, k, g, h, n, d);
}

/// Where the walk leaves a layer, the ray is inside none.
proof fn lemma_crosses(axis: Axis, a: i32, b: i32, g: int, h: int, c: int, n: int, d: int)
    requires
        axis.runs(a, b),
        h > 0,
        d > 0,
        axis.leaves_at(g, h),
        n * h == g * d,
    ensures
        !inside_layer(a as int, b as int, c, n, d),
{
    let t = axis.taken as int;
    let l = axis.length as int;
    let k = if axis.up {
        c - a
    } else {
        a - c
    };
    lemma_layer(axis, a, b, c, n, d);
    assert(2 * l * n == (2 * t + 1) * d) by (nonlinear_arith)
        requires
            2 * l * g == (2 * t + 1) * h,
            n * h == g * d,
            h > 0,
    {
        assert((2 * l * n) * h == (2 * l) * (n * h));
        assert((2 * l) * (g * d) == (2 * l * g) * d);
        assert(((2 * t + 1) * h) * d == ((2 * t + 1) * d) * h);
    }
    assert((2 * k - 1) * d < (2 * t + 1) * d ==> k < t + 1) by (nonlinear_arith)
        requires
            d > 0,
    ;
    assert((2 * t + 1) * d < (2 * k + 1) * d ==> k > t) by (nonlinear_arith)
        requires
            d > 0,
    ;
}

/// Having entered the layer that begins at `g / h`, the walk is where the ray is
/// directly after that.
proof fn lemma_settles(axis: Axis, e: int, f: int, g: int, h: int)
    requires
        f > 0,
        h > 0,
        axis.taken < u64::MAX,
        axis.settled(e, f),
        axis.stays_until(g, h),
        e * h < g * f,
    ensures
        axis.entered(axis.leaves_at(g, h)).settled(g, h),
{
    let t = axis.taken as int;
    let l = axis.length as int;
    if axis.leaves_at(g, h) {
        assert((2 * t + 1) * h < (2 * (t + 1) + 1) * h) by (nonlinear_arith)
            requires
                h > 0,
        ;
        assert((2 * (t + 1) - 1) * h == (2 * t + 1) * h);
    } else {
        assert((2 * t - 1) * h <= 2 * l * g) by (nonlinear_arith)
            requires
                (2 * t - 1) * f <= 2 * l * e,
                e * h < g * f,
                l >= 0,
                f > 0,
                h > 0,
        {
            assert(((2 * t - 1) * f) * h <= (2 * l * e) * h);
            assert((2 * l * e) * h == (2 * l) * (e * h));
            assert((2 * l) * (e * h) <= (2 * l) * (g * f));
            assert((2 * l) * (g * f) == (2 * l * g) * f);
            assert(((2 * t - 1) * f) * h == ((2 * t - 1) * h) * f);
        }
    }
}

/// The place where one walk leaves its layer, if no other leaves its own sooner.
proof fn lemma_next(first: Axis, axis: Axis)
    requires
        !axis.sooner(first),
        first.taken < first.length,
        axis.taken <= axis.length,
    ensures
        axis.stays_until(2 * first.taken + 1, 2 * first.length),
        axis.leaves_at(2 * first.taken + 1, 2 * first.length) <==> (2 * axis.taken + 1)
            * first.length == (2 * first.taken + 1) * axis.length,
        axis.leaves_at(2 * first.taken + 1, 2 * first.length) ==> axis.taken < axis.length,
{
    let (t, l) = (axis.taken as int, axis.length as int);
    let (s, m) = (first.taken as int, first.length as int);
    assert(2 * l * (2 * s + 1) == 2 * ((2 * s + 1) * l)) by (nonlinear_arith);
    assert((2 * t + 1) * (2 * m) == 2 * ((2 * t + 1) * m)) by (nonlinear_arith);
    if t == l {
        assert((2 * s + 1) * l <= (2 * m - 1) * l) by (nonlinear_arith)
            requires
                s < m,
                l >= 0,
        ;
        assert((2 * m - 1) * l < (2 * l + 1) * m) by (nonlinear_arith)
            requires
                m > 0,
                l >= 0,
        ;
    }
}

/// A walk that is not sooner than a second one is not sooner than what is sooner
/// than that.
proof fn lemma_sooner_transitive(x: Axis, w: Axis, z: Axis)
    requires
        !x.sooner(w),
        z.sooner(w),
    ensures
        !x.sooner(z),
{
    let (tx, lx) = (2 * x.taken + 1, x.length as int);
    let (tw, lw) = (2 * w.taken + 1, w.length as int);
    let (tz, lz) = (2 * z.taken + 1, z.length as int);
    assert(tx * lz >= tz * lx) by (nonlinear_arith)
        requires
            tx * lw >= tw * lx,
            tz * lw < tw * lz,
            tx > 0,
            tw > 0,
            tz > 0,
    {
        assert((tz * lw) * tx <= (tw * lz) * tx);
        assert((tx * lw) * tz >= (tw * lx) * tz);
        assert((tz * lw) * tx == (tx * lw) * tz);
        assert((tw * lz) * tx == (tx * lz) * tw);
        assert((tw * lx) * tz == (tz * lx) * tw);
    }
}

/// The walk that leaves its layer next; one that is not at its end, as long as
/// there is such a one.
fn next_to_leave(x: Axis, y: Axis, z: Axis) -> (r: Axis)
    requires
        x.taken <= x.length <= 0x1_0000_0000,
        y.taken <= y.length <= 0x1_0000_0000,
        z.taken <= z.length <= 0x1_0000_0000,
        x.taken < x.length || y.taken < y.length || z.taken < z.length,
    ensures
        !x.sooner(r),
        !y.sooner(r),
        !z.sooner(r),
        r == x || r == y || r == z,
        r.taken < r.length,
{
    let w = if y.is_sooner(x) { y } else { x };
    let r = if z.is_sooner(w) { z } else { w };
    proof {
        if y.sooner(x) {
            lemma_not_both(y, x);
        }
        if z.sooner(w) {
            lemma_not_both(z, w);
            lemma_sooner_transitive(x, w, z);
            lemma_sooner_transitive(y, w, z);
        }
        if x.taken < x.length {
            lemma_unfinished(x, r);
        }
        if y.taken < y.length {
            lemma_unfinished(y, r);
        }
        if z.taken < z.length {
            lemma_unfinished(z, r);
        }
    }
    r
}

/// Of two walks, not both are sooner.
proof fn lemma_not_both(a: Axis, b: Axis)
    requires
        a.sooner(b),
    ensures
        !b.sooner(a),
        !a.sooner(a),
{
}

/// What is not later than a walk that has not ended has not ended.
proof fn lemma_unfinished(axis: Axis, first: Axis)
    requires
        axis.taken < axis.length,
        !axis.sooner(first),
    ensures
        first.taken < first.length,
{
    let (t, l) = (axis.taken as int, axis.length as int);
    let (s, m) = (first.taken as int, first.length as int);
    assert(s < m) by (nonlinear_arith)
        requires
            t < l,
            0 <= t,
            (2 * t + 1) * m >= (2 * s + 1) * l,
            0 <= s,
            0 <= m,
    {
        if s >= m {
            assert((2 * s + 1) * l >= (2 * m + 1) * l);
            assert((2 * t + 1) * m <= (2 * l - 1) * m);
        }
    }
}

/// Directly after `g / h` of the way there is a point of the ray in the layers to
/// which the walk has come: one that is `1 / (h * q)` farther, for a great `q`.
proof fn lemma_settled_layer(axis: Axis, a: i32, b: i32, g: int, h: int, q: int)
    requires
        axis.runs(a, b),
        h > 0,
        q > 2 * axis.length,
        axis.settled(g, h),
    ensures
        inside_layer(a as int, b as int, axis.at(), g * q + 1, h * q),
{
    let t = axis.taken as int;
    let l = axis.length as int;
    let n = g * q + 1;
    let d = h * q;
    lemma_layer(axis, a, b, axis.at(), n, d);
    assert(2 * l * n == (2 * l * g) * q + 2 * l) by (nonlinear_arith)
        requires
            n == g * q + 1,
    ;
    assert((2 * t - 1) * d == ((2 * t - 1) * h) * q) by (nonlinear_arith)
        requires
            d == h * q,
    ;
    assert((2 * t + 1) * d == ((2 * t + 1) * h) * q) by (nonlinear_arith)
        requires
            d == h * q,
    ;
    let low = (2 * t - 1) * h;
    let mid = 2 * l * g;
    let high = (2 * t + 1) * h;
    assert(low * q <= mid * q && mid * q + q <= high * q) by (nonlinear_arith)
        requires
            low <= mid,
            mid + 1 <= high,
            q > 0,
    ;
    if l == 0 {
        assert(low * q < 0) by (nonlinear_arith)
            requires
                low == (2 * t - 1) * h,
                t == 0,
                h > 0,
                q > 0,
        ;
        assert(mid == 0) by (nonlinear_arith)
            requires
                mid == 2 * l * g,
                l == 0,
        ;
    }
}

/// Up to `e / f` of the way, nothing stops a vibration.
spec fn passed<F: Fn(BlockPos) -> Block>(
    block_at: F,
    from: BlockPos,
    to: BlockPos,
    e: int,
    f: int,
) -> bool {
    forall|p: BlockPos, n: int, d: int| #[trigger]
        point_inside(from, to, p, n, d) && n * f <= e * d ==> clear(block_at, from, to, p)
}

/// A block is an end of the way, or lets vibrations through.
spec fn clear<F: Fn(BlockPos) -> Block>(
    block_at: F,
    from: BlockPos,
    to: BlockPos,
    p: BlockPos,
) -> bool {
    p == from || p == to || let_through(block_at, p)
}

/// Whether a block is an end of the way, or lets vibrations through.
fn passes<F: Fn(BlockPos) -> Block>(p: BlockPos, from: BlockPos, to: BlockPos, block_at: &F) -> (r:
    bool)
    requires
        forall|p: BlockPos| call_requires(*block_at, (p,)),
    ensures
        r ==> clear(*block_at, from, to, p),
        !r ==> p != from && p != to && stopped(*block_at, p),
{
    if p == from || p == to {
        return true;
    }
    let block = block_at(p);
    !(block.dampens_vibrations || block.occludes_vibration_signals)
}

/// The walk as a whole: on each axis it runs along the way, and is where the ray
/// is directly after `e / f` of it.
spec fn walks(x: Axis, y: Axis, z: Axis, from: BlockPos, to: BlockPos, e: int, f: int) -> bool {
    &&& x.runs(from.x, to.x)
    &&& y.runs(from.y, to.y)
    &&& z.runs(from.z, to.z)
    &&& 0 <= e < f
    &&& x.settled(e, f)
    &&& y.settled(e, f)
    &&& z.settled(e, f)
}

/// The walk is in a block.
spec fn is_in(x: Axis, y: Axis, z: Axis, p: BlockPos) -> bool {
    p.is_at((x.at(), y.at(), z.at()))
}

/// Between two places where layers are left, the ray is in the block of the walk;
/// at the second place it is inside no block.
proof fn lemma_step<F: Fn(BlockPos) -> Block>(
    block_at: F,
    x: Axis,
    y: Axis,
    z: Axis,
    from: BlockPos,
    to: BlockPos,
    e: int,
    f: int,
    g: int,
    h: int,
    here: BlockPos,
)
    requires
        walks(x, y, z, from, to, e, f),
        h > 0,
        x.stays_until(g, h),
        y.stays_until(g, h),
        z.stays_until(g, h),
        x.leaves_at(g, h) || y.leaves_at(g, h) || z.leaves_at(g, h),
        is_in(x, y, z, here),
        passed(block_at, from, to, e, f),
        clear(block_at, from, to, here),
    ensures
        passed(block_at, from, to, g, h),
{
    assert forall|p: BlockPos, n: int, d: int| #[trigger]
        point_inside(from, to, p, n, d) && n * h <= g * d implies clear(block_at, from, to, p) by {
        if n * f <= e * d {
        } else if n * h < g * d {
            lemma_stays(x, from.x, to.x, e, f, g, h, p.x as int, n, d);
            lemma_stays(y, from.y, to.y, e, f, g, h, p.y as int, n, d);
            lemma_stays(z, from.z, to.z, e, f, g, h, p.z as int, n, d);
            assert(p == here);
        } else if x.leaves_at(g, h) {
            lemma_crosses(x, from.x, to.x, g, h, p.x as int, n, d);
        } else if y.leaves_at(g, h) {
            lemma_crosses(y, from.y, to.y, g, h, p.y as int, n, d);
        } else {
            lemma_crosses(z, from.z, to.z, g, h, p.z as int, n, d);
        }
    }
}

/// At the end of the walk, the whole way has been passed.
proof fn lemma_end<F: Fn(BlockPos) -> Block>(
    block_at: F,
    x: Axis,
    y: Axis,
    z: Axis,
    from: BlockPos,
    to: BlockPos,
    e: int,
    f: int,
)
    requires
        walks(x, y, z, from, to, e, f),
        x.taken == x.length,
        y.taken == y.length,
        z.taken == z.length,
        passed(block_at, from, to, e, f),
    ensures
        forall|p: BlockPos| #[trigger]
            passes_through(from, to, p) ==> clear(block_at, from, to, p),
{
    assert forall|p: BlockPos| #[trigger] passes_through(from, to, p) implies clear(
        block_at,
        from,
        to,
        p,
    ) by {
        let (n, d) = choose|n: int, d: int| #[trigger] point_inside(from, to, p, n, d);
        if n * f > e * d {
            lemma_stays(x, from.x, to.x, e, f, 1, 1, p.x as int, n, d);
            lemma_stays(y, from.y, to.y, e, f, 1, 1, p.y as int, n, d);
            lemma_stays(z, from.z, to.z, e, f, 1, 1, p.z as int, n, d);
            assert(p == to);
        }
    }
}

/// The block of the walk directly after `g / h` of the way holds a point of the
/// ray.
proof fn lemma_settled_block(
    x: Axis,
    y: Axis,
    z: Axis,
    from: BlockPos,
    to: BlockPos,
    g: int,
    h: int,
    p: BlockPos,
)
    requires
        walks(x, y, z, from, to, g, h),
        is_in(x, y, z, p),
    ensures
        passes_through(from, to, p),
{
    let q = 2 * (x.length + y.length + z.length) + 2;
    lemma_settled_layer(x, from.x, to.x, g, h, q);
    lemma_settled_layer(y, from.y, to.y, g, h, q);
    lemma_settled_layer(z, from.z, to.z, g, h, q);
    assert(0 < g * q + 1 < h * q) by (nonlinear_arith)
        requires
            0 <= g,
            g + 1 <= h,
            q >= 2,
    {
        assert(g * q >= 0);
        assert((g + 1) * q <= h * q);
        assert((g + 1) * q == g * q + q);
    }
    assert(point_inside(from, to, p, g * q + 1, h * q));
}

/// Whether some block that the ray passes through, other than those at its ends,
/// lets no vibration through.
pub(crate) fn is_ray_blocked<F: Fn(BlockPos) -> Block>(
    from: BlockPos,
    to: BlockPos,
    block_at: &F,
) -> (r: bool)
    requires
        forall|p: BlockPos| call_requires(*block_at, (p,)),
    ensures
        r ==> exists|p: BlockPos| #[trigger]
            passes_through(from, to, p) && p != from && p != to && stopped(*block_at, p),
        !r ==> forall|p: BlockPos| #[trigger]
            passes_through(from, to, p) && p != from && p != to ==> let_through(*block_at, p),
{
    let mut x = Axis::new(from.x, to.x);
    let mut y = Axis::new(from.y, to.y);
    let mut z = Axis::new(from.z, to.z);
    let mut here = from;
    let ghost mut e: int = 0;
    let ghost mut f: int = 1;
    while x.taken < x.length || y.taken < y.length || z.taken < z.length
        invariant
            forall|p: BlockPos| call_requires(*block_at, (p,)),
            walks(x, y, z, from, to, e, f),
            is_in(x, y, z, here),
            clear(*block_at, from, to, here),
            passed(*block_at, from, to, e, f),
        decreases x.length - x.taken + y.length - y.taken + z.length - z.taken,
    {
        let first = next_to_leave(x, y, z);
        let ghost g = 2 * first.taken + 1;
        let ghost h = 2 * first.length as int;
        let leaves_x: bool = x.is_as_soon(first);
        let leaves_y: bool = y.is_as_soon(first);
        let leaves_z: bool = z.is_as_soon(first);
        proof {
            lemma_next(first, x);
            lemma_next(first, y);
            lemma_next(first, z);
            assert(e * h < g * f) by {
                assert(2 * first.length * e == e * h) by (nonlinear_arith)
                    requires
                        h == 2 * first.length as int,
                ;
            }
            lemma_settles(x, e, f, g, h);
            lemma_settles(y, e, f, g, h);
            lemma_settles(z, e, f, g, h);
            lemma_step(*block_at, x, y, z, from, to, e, f, g, h, here);
            e = g;
            f = h;
        }
        x = x.enter(leaves_x);
        y = y.enter(leaves_y);
        z = z.enter(leaves_z);
        here = BlockPos {
            x: x.coordinate(Ghost(from.x), Ghost(to.x)),
            y: y.coordinate(Ghost(from.y), Ghost(to.y)),
            z: z.coordinate(Ghost(from.z), Ghost(to.z)),
        };
        if !passes(here, from, to, block_at) {
            proof {
                lemma_settled_block(x, y, z, from, to, e, f, here);
            }
            return true;
        }
    }
    proof {
        lemma_end(*block_at, x, y, z, from, to, e, f);
    }
    false
}

/// Every value of a coordinate along the way lies between its ends.
proof fn lemma_layer_between(a: int, b: int, c: int, n: int, d: int)
    requires
        0 < n < d,
        inside_layer(a, b, c, n, d),
    ensures
        a <= c <= b || b <= c <= a,
{
    let (l, k) = if b >= a {
        (b - a, c - a)
    } else {
        (a - b, a - c)
    };
    if b >= a {
        lemma_layer_up(a, l, k, n, d);
    } else {
        lemma_layer_down(a, l, k, n, d);
    }
    assert(0 <= 2 * l * n <= 2 * l * d) by (nonlinear_arith)
        requires
            l >= 0,
            0 < n < d,
    ;
    assert(k >= 0) by (nonlinear_arith)
        requires
            (2 * k + 1) * d >= 0,
            d > 0,
    ;
    assert(k <= l) by (nonlinear_arith)
        requires
            (2 * k - 1) * d <= 2 * l * d,
            d > 0,
    ;
}

/// In steps of a block, the `k`-th step ends at the center of the `k`-th layer.
proof fn lemma_layer_center(a: int, b: int, c: int)
    requires
        a < c < b || b < c < a,
    ensures
        ({
            let (l, k) = if b >= a {
                (b - a, c - a)
            } else {
                (a - b, a - c)
            };
            0 < k < l && inside_layer(a, b, c, k, l)
        }),
{
    let (l, k) = if b >= a {
        (b - a, c - a)
    } else {
        (a - b, a - c)
    };
    assert((2 * k - 1) * l < 2 * l * k < (2 * k + 1) * l) by (nonlinear_arith)
        requires
            l > 0,
    ;
    if b >= a {
        lemma_layer_up(a, l, k, k, l);
    } else {
        lemma_layer_down(a, l, k, k, l);
    }
}

/// Where the ends are in one layer, so is the whole way.
proof fn lemma_layer_fixed(a: int, n: int, d: int)
    requires
        d > 0,
    ensures
        inside_layer(a, a, a, n, d),
{
    lemma_layer_up(a, 0, 0, n, d);
    assert(2 * 0 * n == 0) by (nonlinear_arith);
}

/// A coordinate lies between two others, or is one of them.
pub open spec fn between(a: i32, b: i32, c: i32) -> bool {
    a <= c <= b || b <= c <= a
}

/// The ray stays between its ends in every direction.
pub proof fn ray_stays_between_its_ends(from: BlockPos, to: BlockPos, p: BlockPos)
    requires
        passes_through(from, to, p),
    ensures
        between(from.x, to.x, p.x),
        between(from.y, to.y, p.y),
        between(from.z, to.z, p.z),
{
    let (n, d) = choose|n: int, d: int| #[trigger] point_inside(from, to, p, n, d);
    lemma_layer_between(from.x as int, to.x as int, p.x as int, n, d);
    lemma_layer_between(from.y as int, to.y as int, p.y as int, n, d);
    lemma_layer_between(from.z as int, to.z as int, p.z as int, n, d);
}

/// Along one axis, the ray passes through every block between its ends.
pub proof fn ray_along_an_axis_is_straight(from: BlockPos, to: BlockPos, p: BlockPos)
    requires
        ({
            ||| from.y == to.y && from.z == to.z
            ||| from.x == to.x && from.z == to.z
            ||| from.x == to.x && from.y == to.y
        }),
        p != from,
        p != to,
        between(from.x, to.x, p.x),
        between(from.y, to.y, p.y),
        between(from.z, to.z, p.z),
    ensures
        passes_through(from, to, p),
{
    let (a, b, c) = if from.x != to.x {
        (from.x as int, to.x as int, p.x as int)
    } else if from.y != to.y {
        (from.y as int, to.y as int, p.y as int)
    } else {
        (from.z as int, to.z as int, p.z as int)
    };
    let (l, k) = if b >= a {
        (b - a, c - a)
    } else {
        (a - b, a - c)
    };
    lemma_layer_center(a, b, c);
    lemma_layer_fixed(from.x as int, k, l);
    lemma_layer_fixed(from.y as int, k, l);
    lemma_layer_fixed(from.z as int, k, l);
    assert(point_inside(from, to, p, k, l));
}

/// The way back goes through the same layers.
proof fn lemma_layer_back(a: int, b: int, c: int, n: int, d: int)
    requires
        inside_layer(a, b, c, n, d),
    ensures
        inside_layer(b, a, c, d - n, d),
{
    assert((2 * b + 1) * d + 2 * (a - b) * (d - n) == (2 * a + 1) * d + 2 * (b - a) * n)
        by (nonlinear_arith);
}

/// The ray passes through the same blocks in both directions.
pub proof fn ray_back_is_the_same(from: BlockPos, to: BlockPos, p: BlockPos)
    ensures
        passes_through(from, to, p) <==> passes_through(to, from, p),
{
    if passes_through(from, to, p) {
        lemma_passes_back(from, to, p);
    }
    if passes_through(to, from, p) {
        lemma_passes_back(to, from, p);
    }
}

proof fn lemma_passes_back(from: BlockPos, to: BlockPos, p: BlockPos)
    requires
        passes_through(from, to, p),
    ensures
        passes_through(to, from, p),
{
    let (n, d) = choose|n: int, d: int| #[trigger] point_inside(from, to, p, n, d);
    lemma_layer_back(from.x as int, to.x as int, p.x as int, n, d);
    lemma_layer_back(from.y as int, to.y as int, p.y as int, n, d);
    lemma_layer_back(from.z as int, to.z as int, p.z as int, n, d);
    assert(point_inside(to, from, p, d - n, d));
}

} // verus!
