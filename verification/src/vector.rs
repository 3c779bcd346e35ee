//! 2D integer lattice vectors, straight-segment rasterization and closed-disk
//! enumeration.
//!
//! `segment_pts` samples the straight line between two lattice points at
//! unit-equivalent speed: it takes `K = ceil(|b - a|)` equal steps and rounds
//! each exact sample to the nearest lattice point (halves round up), so the
//! sequence starts at `a`, ends at `b`, and never leaves the bounding box.
//! `circle_pts` enumerates every lattice point of a closed disk column by
//! column.  Both are exact integer computations.
use vstd::prelude::*;

verus! {

use vstd::arithmetic::div_mod::{
    lemma_div_multiples_vanish_fancy,
    lemma_div_is_ordered,
};

#[derive(Clone, Copy, PartialEq, Eq, Structural, PartialOrd, Ord, Default, Hash, Debug)]
pub struct Vector {
    pub x: i32,
    pub y: i32,
}

/// Largest `r` with `r * r <= n`.
pub open spec fn sqrt_floor(n: nat) -> nat
    decreases n,
{
    if n == 0 {
        0
    } else {
        let p = sqrt_floor((n - 1) as nat);
        if (p + 1) * (p + 1) <= n {
            p + 1
        } else {
            p
        }
    }
}

/// Smallest `r` with `n <= r * r`.
pub open spec fn sqrt_ceil(n: nat) -> nat {
    if sqrt_floor(n) * sqrt_floor(n) == n {
        sqrt_floor(n)
    } else {
        sqrt_floor(n) + 1
    }
}

/// A square is never negative.
pub proof fn lemma_sq_nonneg(a: int)
    ensures
        a * a >= 0,
{
    assert(a * a >= 0) by (nonlinear_arith);
}

pub proof fn lemma_sqrt_floor(n: nat)
    ensures
        (sqrt_floor(n) as int) * (sqrt_floor(n) as int) <= n as int,
        (n as int) < ((sqrt_floor(n) as int) + 1) * ((sqrt_floor(n) as int) + 1),
    decreases n,
{
    if n > 0 {
        lemma_sqrt_floor((n - 1) as nat);
        let p = sqrt_floor((n - 1) as nat) as int;
        lemma_sq_nonneg(p + 1);
        if (p + 1) * (p + 1) <= n as int {
            assert(sqrt_floor(n) as int == p + 1);
            assert((n as int) <= (p + 1) * (p + 1));
            assert((p + 1 + 1) * (p + 1 + 1) > (p + 1) * (p + 1)) by (nonlinear_arith)
                requires
                    p >= 0,
            ;
        } else {
            assert(sqrt_floor(n) as int == p);
        }
    } else {
        assert(sqrt_floor(n) == 0);
    }
}

pub proof fn lemma_sqrt_floor_unique(n: nat, r: int)
    requires
        0 <= r,
        r * r <= n as int,
        (n as int) < (r + 1) * (r + 1),
    ensures
        r == sqrt_floor(n) as int,
{
    lemma_sqrt_floor(n);
    let s = sqrt_floor(n) as int;
    if r < s {
        assert((r + 1) * (r + 1) <= s * s) by (nonlinear_arith)
            requires
                0 <= r,
                r + 1 <= s,
        ;
    }
    if r > s {
        assert((s + 1) * (s + 1) <= r * r) by (nonlinear_arith)
            requires
                0 <= s,
                s + 1 <= r,
        ;
    }
}

/// Exec counterpart of `sqrt_floor`.
fn sqrt_floor_exec(n: u128) -> (r: u128)
    requires
        n < 0x1_0000_0000_0000_0000_0000_0000_0000,
    ensures
        r == sqrt_floor(n as nat),
{
    let mut r: u128 = 0;
    loop
        invariant
            n < 0x1_0000_0000_0000_0000_0000_0000_0000,
            r * r <= n,
            r <= n,
        ensures
            r * r <= n < (r + 1) * (r + 1),
        decreases n - r,
    {
        assert((r + 1) * (r + 1) <= 4 * (r * r) + 4) by (nonlinear_arith)
            requires
                r >= 0,
        ;
        if (r + 1) * (r + 1) <= n {
            assert(r < n) by (nonlinear_arith)
                requires
                    (r + 1) * (r + 1) <= n,
                    r >= 0,
            ;
            r = r + 1;
        } else {
            break;
        }
    }
    proof {
        lemma_sqrt_floor_unique(n as nat, r as int);
    }
    r
}

/// Exec counterpart of `sqrt_ceil`.
fn sqrt_ceil_exec(n: u128) -> (r: u128)
    requires
        n < 0x1_0000_0000_0000_0000_0000_0000_0000,
    ensures
        r == sqrt_ceil(n as nat),
{
    let f = sqrt_floor_exec(n);
    proof {
        lemma_sqrt_floor(n as nat);
        lemma_sq_nonneg(f as int);
        assert(f < 0x100_0000_0000_0000) by (nonlinear_arith)
            requires
                f >= 0,
                (f as int) * (f as int) <= n,
                n < 0x1_0000_0000_0000_0000_0000_0000_0000,
        ;
    }
    if f * f == n {
        f
    } else {
        f + 1
    }
}

/// Number of unit-equivalent steps from `a` to `b`: the Euclidean distance
/// rounded up.  Zero exactly when `a == b`.
pub open spec fn seg_steps(a: Vector, b: Vector) -> nat {
    sqrt_ceil((((b.x - a.x) * (b.x - a.x)) + ((b.y - a.y) * (b.y - a.y))) as nat)
}

/// The rounded coordinate of the `k`-th of `kk` equal steps from `a0` towards
/// `a0 + d`: `floor((a0 + k * d / kk) + 1/2)`, written over a common
/// denominator `2 * kk`.
pub open spec fn seg_coord(a0: int, d: int, k: int, kk: int) -> int {
    (2 * (a0 * kk + k * d) + kk) / (2 * kk)
}

pub open spec fn seg_x(a: Vector, b: Vector, k: int) -> int {
    if seg_steps(a, b) == 0 {
        a.x as int
    } else {
        seg_coord(a.x as int, b.x - a.x, k, seg_steps(a, b) as int)
    }
}

pub open spec fn seg_y(a: Vector, b: Vector, k: int) -> int {
    if seg_steps(a, b) == 0 {
        a.y as int
    } else {
        seg_coord(a.y as int, b.y - a.y, k, seg_steps(a, b) as int)
    }
}

/// The `k`-th lattice point of the rasterized segment from `a` to `b`.
pub open spec fn seg_pt(a: Vector, b: Vector, k: int) -> Vector {
    Vector { x: seg_x(a, b, k) as i32, y: seg_y(a, b, k) as i32 }
}

/// The product of two bounded factors is bounded.
proof fn lemma_mul_bound_abs(a: int, b: int, ba: int, bb: int)
    requires
        -ba < a,
        a < ba,
        -bb < b,
        b < bb,
        0 < ba,
        0 < bb,
    ensures
        -(ba * bb) < a * b,
        a * b < ba * bb,
{
    assert(-(ba * bb) < a * b && a * b < ba * bb) by (nonlinear_arith)
        requires
            -ba < a,
            a < ba,
            -bb < b,
            b < bb,
            0 < ba,
            0 < bb,
    ;
}

/// The interpolated coordinates never leave the segment's bounding box, and
/// the ends land exactly on `a0` and `a0 + d`.
pub proof fn lemma_seg_coord_bounds(a0: int, d: int, k: int, kk: int)
    requires
        1 <= kk,
        0 <= k <= kk,
    ensures
        d >= 0 ==> a0 <= seg_coord(a0, d, k, kk) <= a0 + d,
        d < 0 ==> a0 + d <= seg_coord(a0, d, k, kk) <= a0,
        k == 0 ==> seg_coord(a0, d, k, kk) == a0,
        k == kk ==> seg_coord(a0, d, k, kk) == a0 + d,
{
    let den = 2 * kk;
    let lo_n = 2 * (a0 * kk) + kk;
    let hi_n = 2 * (a0 * kk + kk * d) + kk;
    let n = 2 * (a0 * kk + k * d) + kk;
    assert(2 * (a0 * kk) + kk == (2 * kk) * a0 + kk) by (nonlinear_arith);
    assert(2 * (a0 * kk + kk * d) + kk == (2 * kk) * (a0 + d) + kk) by (nonlinear_arith);
    assert(lo_n / den == a0) by {
        lemma_div_multiples_vanish_fancy(a0, kk, den);
    }
    assert(hi_n / den == a0 + d) by {
        lemma_div_multiples_vanish_fancy(a0 + d, kk, den);
    }
    if d >= 0 {
        assert(0 <= k * d <= kk * d) by (nonlinear_arith)
            requires
                0 <= k <= kk,
                d >= 0,
        ;
        lemma_div_is_ordered(lo_n, n, den);
        lemma_div_is_ordered(n, hi_n, den);
    } else {
        assert(kk * d <= k * d <= 0) by (nonlinear_arith)
            requires
                0 <= k <= kk,
                d < 0,
        ;
        lemma_div_is_ordered(hi_n, n, den);
        lemma_div_is_ordered(n, lo_n, den);
    }
    if k == kk {
        assert(k * d == kk * d);
    }
}

/// Both coordinates of every rasterized point stay inside the bounding box of
/// `a` and `b`; the first point is `a` and the last is `b`.
pub proof fn lemma_seg_pt_bounds(a: Vector, b: Vector, k: int)
    requires
        0 <= k <= seg_steps(a, b),
    ensures
        vstd::math::min(a.x as int, b.x as int) <= seg_x(a, b, k) <= vstd::math::max(
            a.x as int,
            b.x as int,
        ),
        vstd::math::min(a.y as int, b.y as int) <= seg_y(a, b, k) <= vstd::math::max(
            a.y as int,
            b.y as int,
        ),
        k == 0 ==> seg_pt(a, b, k) == a,
        k == seg_steps(a, b) ==> seg_pt(a, b, k) == b,
{
    let kk = seg_steps(a, b) as int;
    if kk == 0 {
        let dsq = ((b.x - a.x) * (b.x - a.x)) + ((b.y - a.y) * (b.y - a.y));
        assert((b.x - a.x) * (b.x - a.x) >= 0) by (nonlinear_arith);
        assert((b.y - a.y) * (b.y - a.y) >= 0) by (nonlinear_arith);
        lemma_sqrt_floor(dsq as nat);
        assert(dsq >= 0);
        assert(seg_steps(a, b) == sqrt_ceil(dsq as nat));
        assert(sqrt_ceil(dsq as nat) == 0);
        let fl = sqrt_floor(dsq as nat) as int;
        lemma_sq_nonneg(fl);
        if fl * fl == dsq {
            assert(sqrt_ceil(dsq as nat) as int == fl);
            assert(fl == 0);
            assert(dsq == 0) by (nonlinear_arith)
                requires
                    fl * fl == dsq,
                    fl == 0,
            ;
        } else {
            assert(sqrt_ceil(dsq as nat) as int == fl + 1);
            assert(false);
        }
        assert(dsq == 0);
        assert(b.x - a.x == 0 && b.y - a.y == 0) by (nonlinear_arith)
            requires
                ((b.x - a.x) * (b.x - a.x)) + ((b.y - a.y) * (b.y - a.y)) == 0,
        ;
        assert(a == b);
    } else {
        lemma_seg_coord_bounds(a.x as int, b.x - a.x, k, kk);
        lemma_seg_coord_bounds(a.y as int, b.y - a.y, k, kk);
    }
}

impl Vector {
    pub fn new(x: i32, y: i32) -> (r: Vector)
        ensures
            r == (Vector { x, y }),
    {
        Vector { x, y }
    }

    /// Componentwise sum.
    pub fn add(self, other: Vector) -> (r: Vector)
        requires
            i32::MIN <= self.x + other.x <= i32::MAX,
            i32::MIN <= self.y + other.y <= i32::MAX,
        ensures
            r.x == self.x + other.x,
            r.y == self.y + other.y,
    {
        Vector { x: self.x + other.x, y: self.y + other.y }
    }

    /// Componentwise difference.
    pub fn sub(self, other: Vector) -> (r: Vector)
        requires
            i32::MIN <= self.x - other.x <= i32::MAX,
            i32::MIN <= self.y - other.y <= i32::MAX,
        ensures
            r.x == self.x - other.x,
            r.y == self.y - other.y,
    {
        Vector { x: self.x - other.x, y: self.y - other.y }
    }

    /// Componentwise negation.
    pub fn neg(self) -> (r: Vector)
        requires
            self.x != i32::MIN,
            self.y != i32::MIN,
        ensures
            r.x == -self.x,
            r.y == -self.y,
    {
        Vector { x: -self.x, y: -self.y }
    }

    /// The rasterized straight segment from `self` to `other`, both ends
    /// included: `seg_steps + 1` lattice points, in travel order.
    pub fn segment_pts(self, other: Vector) -> (r: Vec<Vector>)
        ensures
            r@.len() == seg_steps(self, other) + 1,
            forall|k: int| 0 <= k < r@.len() ==> #[trigger] r@[k] == seg_pt(self, other, k),
    {
        let dx: i128 = other.x as i128 - self.x as i128;
        let dy: i128 = other.y as i128 - self.y as i128;
        proof {
            assert(dx * dx >= 0 && dy * dy >= 0) by (nonlinear_arith);
            assert(dx * dx < 0x1_0000_0000_0000_0000 && dy * dy < 0x1_0000_0000_0000_0000)
                by (nonlinear_arith)
                requires
                    -0x1_0000_0000 < dx < 0x1_0000_0000,
                    -0x1_0000_0000 < dy < 0x1_0000_0000,
            ;
        }
        let dsq_i: i128 = dx * dx + dy * dy;
        let dsq: u128 = dsq_i as u128;
        let kk: u128 = sqrt_ceil_exec(dsq);
        proof {
            assert(dsq == (((other.x - self.x) * (other.x - self.x)) + ((other.y - self.y) * (
            other.y - self.y))));
            assert(kk == seg_steps(self, other));
            lemma_sqrt_floor(dsq as nat);
            let f = sqrt_floor(dsq as nat) as int;
            lemma_sq_nonneg(f);
            assert(f < 0x1_8000_0000) by (nonlinear_arith)
                requires
                    f >= 0,
                    f * f <= dsq,
                    dsq < 0x2_0000_0000_0000_0000,
            ;
            assert(kk <= f + 1);
        }
        let mut r: Vec<Vector> = Vec::new();
        if kk == 0 {
            r.push(self);
            proof {
                lemma_seg_pt_bounds(self, other, 0);
            }
            return r;
        }
        let mut k: u128 = 0;
        while k <= kk
            invariant
                dx == other.x - self.x,
                dy == other.y - self.y,
                1 <= kk < 0x1_8000_0001,
                kk == seg_steps(self, other),
                0 <= k <= kk + 1,
                r@.len() == k,
                forall|j: int| 0 <= j < r@.len() ==> #[trigger] r@[j] == seg_pt(self, other, j),
            decreases kk + 1 - k,
        {
            proof {
                lemma_mul_bound_abs(self.x as int, kk as int, 0x1_0000_0000, 0x2_0000_0000);
                lemma_mul_bound_abs(k as int, dx as int, 0x2_0000_0001, 0x1_0000_0000);
                lemma_mul_bound_abs(self.y as int, kk as int, 0x1_0000_0000, 0x2_0000_0000);
                lemma_mul_bound_abs(k as int, dy as int, 0x2_0000_0001, 0x1_0000_0000);
            }
            let den: i128 = 2 * (kk as i128);
            let nx: i128 = 2 * ((self.x as i128) * (kk as i128) + (k as i128) * dx) + (kk as i128);
            let ny: i128 = 2 * ((self.y as i128) * (kk as i128) + (k as i128) * dy) + (kk as i128);
            proof {
                lemma_seg_pt_bounds(self, other, k as int);
                assert(nx as int / (den as int) == seg_x(self, other, k as int));
                assert(ny as int / (den as int) == seg_y(self, other, k as int));
                assert(i32::MIN <= nx as int / (den as int) <= i32::MAX);
                assert(i32::MIN <= ny as int / (den as int) <= i32::MAX);
            }
            let qx: i128 = nx.checked_div_euclid(den).unwrap();
            let qy: i128 = ny.checked_div_euclid(den).unwrap();
            r.push(Vector { x: qx as i32, y: qy as i32 });
            proof {
                assert(r@[k as int] == seg_pt(self, other, k as int));
            }
            k = k + 1;
        }
        r
    }
}

/// Whether `p` occurs in `v`.
pub fn contains_pt(v: &Vec<Vector>, p: Vector) -> (r: bool)
    ensures
        r == v@.contains(p),
{
    let mut i: usize = 0;
    while i < v.len()
        invariant
            0 <= i <= v@.len(),
            forall|j: int| 0 <= j < i ==> v@[j] != p,
        decreases v@.len() - i,
    {
        if v[i].x == p.x && v[i].y == p.y {
            assert(v@[i as int] == p);
            return true;
        }
        i = i + 1;
    }
    false
}

/// Absolute value, for contracts.
pub open spec fn abs_spec(v: int) -> int {
    if v < 0 {
        -v
    } else {
        v
    }
}

/// Membership in the closed disk of radius `rad` around the origin.
pub open spec fn in_disk(p: Vector, rad: int) -> bool {
    p.x * p.x + p.y * p.y <= rad * rad
}

/// Column-by-column enumeration order: `x` ascending, then `y` ascending.
pub open spec fn lex_before(a: Vector, b: Vector) -> bool {
    a.x < b.x || (a.x == b.x && a.y < b.y)
}

/// The height of column `x` of the closed disk of radius `rad`.
pub open spec fn disk_col_height(rad: int, x: int) -> int
    recommends
        -rad <= x <= rad,
{
    sqrt_floor((rad * rad - x * x) as nat) as int
}

/// A point of column `x` is in the disk exactly when `|y|` is at most the
/// column height.
proof fn lemma_in_disk_col(rad: int, x: int, y: int)
    requires
        0 <= rad,
        -rad <= x <= rad,
    ensures
        (x * x + y * y <= rad * rad) <==> (-disk_col_height(rad, x) <= y <= disk_col_height(
            rad,
            x,
        )),
{
    assert(x * x <= rad * rad) by (nonlinear_arith)
        requires
            -rad <= x <= rad,
            rad >= 0,
    ;
    let n = (rad * rad - x * x) as nat;
    lemma_sqrt_floor(n);
    let h = sqrt_floor(n) as int;
    assert(n as int == rad * rad - x * x);
    if -h <= y <= h {
        assert(y * y <= h * h) by (nonlinear_arith)
            requires
                -h <= y,
                y <= h,
                h >= 0,
        ;
    }
    if y * y <= n as int {
        assert(-h <= y && y <= h) by (nonlinear_arith)
            requires
                y * y <= n as int,
                h >= 0,
                (n as int) < (h + 1) * (h + 1),
        ;
    }
}

/// Every lattice point of the closed disk of radius `|radius|`, column by
/// column: `x` ascending, and `y` ascending inside each column.
pub fn circle_pts(radius: i32) -> (r: Vec<Vector>)
    requires
        -30000 <= radius <= 30000,
    ensures
        forall|p: Vector| #[trigger] r@.contains(p) <==> in_disk(p, abs_spec(radius as int)),
        forall|j: int, l: int| 0 <= j < l < r@.len() ==> lex_before(r@[j], r@[l]),
{
    let rad: i32 = if radius < 0 {
        -radius
    } else {
        radius
    };
    let mut r: Vec<Vector> = Vec::new();
    proof {
        assert forall|p: Vector| in_disk(p, rad as int) implies -rad <= p.x as int by {
            assert((p.y as int) * (p.y as int) >= 0) by (nonlinear_arith);
            assert(-rad <= p.x as int) by (nonlinear_arith)
                requires
                    (p.x as int) * (p.x as int) <= (rad as int) * (rad as int),
                    rad as int >= 0,
            ;
        }
    }
    let mut x: i32 = -rad;
    while x <= rad
        invariant
            0 <= rad <= 30000,
            rad == abs_spec(radius as int),
            -rad <= x <= rad + 1,
            forall|p: Vector| #[trigger] r@.contains(p) <==> (in_disk(p, rad as int) && p.x < x),
            forall|j: int, l: int| 0 <= j < l < r@.len() ==> lex_before(r@[j], r@[l]),
            forall|j: int| 0 <= j < r@.len() ==> (#[trigger] r@[j]).x < x,
        decreases rad + 1 - x,
    {
        proof {
            assert((rad as int) * (rad as int) <= 900000000) by (nonlinear_arith)
                requires
                    0 <= rad as int,
                    rad as int <= 30000,
            ;
            assert(0 <= (x as int) * (x as int)) by (nonlinear_arith);
            assert((x as int) * (x as int) <= (rad as int) * (rad as int)) by (nonlinear_arith)
                requires
                    -rad <= x as int,
                    x as int <= rad,
                    0 <= rad as int,
            ;
        }
        let xsq: i64 = (x as i64) * (x as i64);
        let rsq: i64 = (rad as i64) * (rad as i64);
        let h128: u128 = sqrt_floor_exec((rsq - xsq) as u128);
        proof {
            lemma_sqrt_floor((rsq - xsq) as nat);
            assert((h128 as int) * (h128 as int) <= 900000000);
            assert(h128 <= 30000) by (nonlinear_arith)
                requires
                    h128 >= 0,
                    (h128 as int) * (h128 as int) <= 900000000,
            ;
            assert(h128 == disk_col_height(rad as int, x as int));
        }
        let h: i32 = h128 as i32;
        proof {
            assert forall|p: Vector| in_disk(p, rad as int) && p.x == x implies -(h as int)
                <= p.y as int && p.y as int <= h as int by {
                lemma_in_disk_col(rad as int, x as int, p.y as int);
            }
        }
        let mut y: i32 = -h;
        while y <= h
            invariant
                0 <= rad <= 30000,
                rad == abs_spec(radius as int),
                -rad <= x <= rad,
                0 <= h <= 30000,
                h == disk_col_height(rad as int, x as int),
                -h <= y <= h + 1,
                forall|p: Vector|
                    #[trigger] r@.contains(p) <==> (in_disk(p, rad as int) && (p.x < x || (p.x == x
                        && p.y < y))),
                forall|j: int, l: int| 0 <= j < l < r@.len() ==> lex_before(r@[j], r@[l]),
                forall|j: int|
                    0 <= j < r@.len() ==> ((#[trigger] r@[j]).x < x || (r@[j].x == x && r@[j].y
                        < y)),
            decreases h + 1 - y,
        {
            let p = Vector { x, y };
            proof {
                lemma_in_disk_col(rad as int, x as int, y as int);
                assert(in_disk(p, rad as int));
            }
            let ghost old_r = r@;
            r.push(p);
            proof {
                assert forall|q: Vector| #[trigger] r@.contains(q) implies (in_disk(q, rad as int)
                    && (q.x < x || (q.x == x && q.y < y + 1))) by {
                    if q != p {
                        assert(old_r.contains(q));
                    }
                }
                assert forall|q: Vector|
                    in_disk(q, rad as int) && (q.x < x || (q.x == x && q.y < y + 1)) implies r@
                    .contains(q) by {
                    if q == p {
                        assert(r@[r@.len() - 1] == p);
                    } else {
                        assert(old_r.contains(q));
                        let j = choose|j: int| 0 <= j < old_r.len() && old_r[j] == q;
                        assert(r@[j] == q);
                    }
                }
            }
            y = y + 1;
        }
        proof {
            assert forall|p: Vector| in_disk(p, rad as int) && p.x < x + 1 implies r@.contains(
                p,
            ) by {
                if p.x == x {
                    lemma_in_disk_col(rad as int, x as int, p.y as int);
                }
            }
        }
        x = x + 1;
    }
    proof {
        assert forall|p: Vector| in_disk(p, abs_spec(radius as int)) implies r@.contains(p) by {
            assert((p.y as int) * (p.y as int) >= 0) by (nonlinear_arith);
            assert(-rad <= p.x as int <= rad) by (nonlinear_arith)
                requires
                    (p.x as int) * (p.x as int) <= (rad as int) * (rad as int),
                    rad as int >= 0,
            ;
        }
    }
    r
}

} // verus!
