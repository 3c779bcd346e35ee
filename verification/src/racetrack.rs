//! The scrolling racetrack: a windowed grid carved by a momentum-biased
//! random walk driven by the reversible generator.
//!
//! The centerline path is modelled by the spec functions `walk_state`,
//! `walk_vel` and `walk_x`, indexed by an integer step number that can run in
//! both directions because the generator is a bijection.  `translate` moves
//! the visible window by a displacement and rebuilds the grid so that its
//! contents are a pure function of the construction parameters and the
//! cumulative displacement alone — never of how the displacement was split
//! over calls.
use vstd::prelude::*;

verus! {

use vstd::arithmetic::div_mod::{
    lemma_mod_bound,
    lemma_small_mod,
    lemma_div_is_ordered,
    lemma_div_multiples_vanish_fancy,
    lemma_div_pos_is_pos,
};
use crate::rng::{Rng, MODULUS, step_forward, step_backward, iter_forward, iter_backward};
use crate::rng;
use crate::vector::{Vector, abs_spec, in_disk, circle_pts, contains_pt, lex_before, seg_pt, seg_steps};
use crate::grid::Grid;

/// The wrap-around width of 32-bit arithmetic.
pub const WRAP: u64 = 0x1_0000_0000;

/// `v` reduced into `[i32::MIN, i32::MAX]`, congruent modulo `2^32`.
pub open spec fn norm32(v: int) -> int {
    ((v - i32::MIN) % (WRAP as int)) + i32::MIN
}

pub proof fn lemma_norm32_range(v: int)
    ensures
        i32::MIN <= norm32(v) <= i32::MAX,
{
    lemma_mod_bound(v - i32::MIN, WRAP as int);
}

pub proof fn lemma_norm32_id(v: int)
    requires
        i32::MIN <= v <= i32::MAX,
    ensures
        norm32(v) == v,
{
    lemma_small_mod((v - i32::MIN) as nat, WRAP as nat);
}

/// `norm32(v)` and `v` differ by a multiple of `2^32`.
pub proof fn lemma_norm32_congruent(v: int)
    ensures
        (norm32(v) - v) % (WRAP as int) == 0,
{
    let w = WRAP as int;
    let t = v - i32::MIN;
    vstd::arithmetic::div_mod::lemma_fundamental_div_mod(t, w);
    let q = t / w;
    assert(norm32(v) - v == t % w - t);
    assert(t % w - t == -(w * q));
    assert(-(w * q) == (-q) * w) by (nonlinear_arith);
    vstd::arithmetic::div_mod::lemma_mod_multiples_basic(-q, w);
}

/// Values congruent modulo `2^32` normalize identically.
pub proof fn lemma_norm32_eq(a: int, b: int)
    requires
        (a - b) % (WRAP as int) == 0,
    ensures
        norm32(a) == norm32(b),
{
    let w = WRAP as int;
    vstd::arithmetic::div_mod::lemma_fundamental_div_mod(a - b, w);
    let q = (a - b) / w;
    assert(a - b == w * q);
    assert(a - i32::MIN == (b - i32::MIN) + w * q);
    vstd::arithmetic::div_mod::lemma_mod_multiples_vanish(q, b - i32::MIN, w);
    assert((w * q + (b - i32::MIN)) % w == (b - i32::MIN) % w);
}

/// Adding to a normalized value then normalizing equals normalizing the
/// plain sum.
pub proof fn lemma_norm32_shift(a: int, b: int)
    ensures
        norm32(norm32(a) + b) == norm32(a + b),
{
    lemma_norm32_congruent(a);
    assert(((norm32(a) + b) - (a + b)) % (WRAP as int) == 0);
    lemma_norm32_eq(norm32(a) + b, a + b);
}

/// The divisor used to turn a raw draw into a momentum drift.
pub open spec fn drift_div() -> int {
    ((MODULUS - 1) as int) / 3
}

/// The momentum drift produced by one raw draw: `draw / (RAND_MAX / 3) - 1`.
pub open spec fn drift(s: u64) -> int {
    (s as int) / drift_div() - 1
}

pub proof fn lemma_drift_bounds(s: u64)
    requires
        s < MODULUS,
    ensures
        -1 <= drift(s) <= 2,
{
    let k = drift_div();
    assert(k == 715827882);
    lemma_div_pos_is_pos(s as int, k);
    lemma_div_is_ordered(s as int, 3 * k + 1, k);
    assert((3 * k + 1) / k == 3) by {
        lemma_div_multiples_vanish_fancy(3, 1, k);
        assert(k * 3 + 1 == 3 * k + 1) by (nonlinear_arith);
    }
}

/// The generator state at signed step `n` of the walk seeded with `s0`.
#[verifier::opaque]
pub open spec fn walk_state(s0: u64, n: int) -> u64 {
    if n >= 0 {
        iter_forward(s0, n as nat)
    } else {
        iter_backward(s0, (-n) as nat)
    }
}

/// The horizontal momentum at signed step `n`.
#[verifier::opaque]
pub open spec fn walk_vel(s0: u64, n: int) -> int
    decreases abs_spec(n),
{
    if n == 0 {
        0
    } else if n > 0 {
        walk_vel(s0, n - 1) + drift(walk_state(s0, n - 1))
    } else {
        walk_vel(s0, n + 1) - drift(walk_state(s0, n))
    }
}

/// The horizontal path position at signed step `n`, in wrapped 32-bit
/// arithmetic: each step first updates the momentum, then moves by the new
/// momentum, so step `n` lands at `x(n - 1) + vel(n)`.
#[verifier::opaque]
pub open spec fn walk_x(s0: u64, n: int) -> int
    decreases abs_spec(n),
{
    if n == 0 {
        0
    } else if n > 0 {
        norm32(walk_x(s0, n - 1) + walk_vel(s0, n))
    } else {
        norm32(walk_x(s0, n + 1) - walk_vel(s0, n + 1))
    }
}

pub proof fn lemma_walk_state_bounded(s0: u64, n: int)
    requires
        s0 < MODULUS,
    ensures
        walk_state(s0, n) < MODULUS,
    decreases abs_spec(n),
{
    reveal(walk_state);
    if n > 0 {
        let m = n as nat;
        assert(iter_forward(s0, m) == step_forward(iter_forward(s0, (m - 1) as nat)));
        assert((m - 1) as nat == (n - 1) as nat);
        rng::lemma_step_forward_bounded(walk_state(s0, n - 1));
    } else if n < 0 {
        let m = (-n) as nat;
        assert(iter_backward(s0, m) == step_backward(iter_backward(s0, (m - 1) as nat)));
        rng::lemma_step_backward_bounded(iter_backward(s0, (m - 1) as nat));
    }
}

/// One forward generator step advances the walk state by one, and one
/// backward step retreats it by one.
pub proof fn lemma_walk_state_step(s0: u64, n: int)
    requires
        s0 < MODULUS,
    ensures
        walk_state(s0, n + 1) == step_forward(walk_state(s0, n)),
        walk_state(s0, n - 1) == step_backward(walk_state(s0, n)),
{
    reveal(walk_state);
    lemma_walk_state_bounded(s0, n);
    if n >= 0 {
        let m = (n + 1) as nat;
        assert(iter_forward(s0, m) == step_forward(iter_forward(s0, (m - 1) as nat)));
        assert((m - 1) as nat == n as nat);
        if n == 0 {
            assert(iter_backward(s0, 1) == step_backward(iter_backward(s0, 0)));
        } else {
            let l = n as nat;
            assert(iter_forward(s0, l) == step_forward(iter_forward(s0, (l - 1) as nat)));
            assert((l - 1) as nat == (n - 1) as nat);
            lemma_walk_state_bounded(s0, n - 1);
            rng::lemma_backward_forward(walk_state(s0, n - 1));
        }
    } else {
        let m = (-(n - 1)) as nat;
        assert(iter_backward(s0, m) == step_backward(iter_backward(s0, (m - 1) as nat)));
        assert((m - 1) as nat == (-n) as nat);
        let l = (-n) as nat;
        assert(iter_backward(s0, l) == step_backward(iter_backward(s0, (l - 1) as nat)));
        assert((l - 1) as nat == (-(n + 1)) as nat);
        lemma_walk_state_bounded(s0, n + 1);
        rng::lemma_forward_backward(walk_state(s0, n + 1));
    }
}

/// The momentum recurrence holds at every signed step.
pub proof fn lemma_walk_vel_step(s0: u64, n: int)
    ensures
        walk_vel(s0, n + 1) == walk_vel(s0, n) + drift(walk_state(s0, n)),
{
    reveal_with_fuel(walk_vel, 2);
    if n + 1 > 0 {
    } else {
        assert(walk_vel(s0, n) == walk_vel(s0, n + 1) - drift(walk_state(s0, n)));
    }
}

/// The wrapped position recurrence holds at every signed step: the momentum
/// is updated first and the position then moves by the new momentum.
pub proof fn lemma_walk_x_step(s0: u64, n: int)
    ensures
        walk_x(s0, n + 1) == norm32(walk_x(s0, n) + walk_vel(s0, n + 1)),
{
    reveal_with_fuel(walk_x, 2);
    reveal_with_fuel(walk_vel, 2);
    if n + 1 > 0 {
    } else {
        assert(walk_x(s0, n) == norm32(walk_x(s0, n + 1) - walk_vel(s0, n + 1)));
        lemma_norm32_shift(walk_x(s0, n + 1) - walk_vel(s0, n + 1), walk_vel(s0, n + 1));
        assert(norm32(walk_x(s0, n) + walk_vel(s0, n + 1)) == norm32(
            norm32(walk_x(s0, n + 1) - walk_vel(s0, n + 1)) + walk_vel(s0, n + 1),
        ));
        lemma_walk_x_in_range(s0, n + 1);
        lemma_norm32_id(walk_x(s0, n + 1));
    }
}

/// Every walk position is already normalized.
pub proof fn lemma_walk_x_in_range(s0: u64, n: int)
    ensures
        i32::MIN <= walk_x(s0, n) <= i32::MAX,
    decreases abs_spec(n),
{
    reveal_with_fuel(walk_x, 2);
    if n == 0 {
    } else if n > 0 {
        lemma_norm32_range(walk_x(s0, n - 1) + walk_vel(s0, n));
    } else {
        lemma_norm32_range(walk_x(s0, n + 1) - walk_vel(s0, n + 1));
    }
}

/// The momentum after `n` steps is at most `2 * |n|` in magnitude.
pub proof fn lemma_walk_vel_bound(s0: u64, n: int)
    requires
        s0 < MODULUS,
    ensures
        -2 * abs_spec(n) <= walk_vel(s0, n) <= 2 * abs_spec(n),
    decreases abs_spec(n),
{
    reveal_with_fuel(walk_vel, 2);
    if n > 0 {
        lemma_walk_vel_bound(s0, n - 1);
        lemma_walk_state_bounded(s0, n - 1);
        lemma_drift_bounds(walk_state(s0, n - 1));
    } else if n < 0 {
        lemma_walk_vel_bound(s0, n + 1);
        lemma_walk_state_bounded(s0, n);
        lemma_drift_bounds(walk_state(s0, n));
    }
}

/// Membership in the carving ring of radius `rad`: inside the closed disk of
/// radius `rad` but, when `rad >= 2`, outside the closed disk of radius
/// `rad - 2`.
pub open spec fn ring_mem(p: Vector, rad: int) -> bool {
    in_disk(p, rad) && !(rad >= 2 && in_disk(p, rad - 2))
}

/// The carving ring: a thin annulus for `|radius| >= 2`, the full disk for
/// smaller radii.
pub fn make_ring(radius: i32) -> (r: Vec<Vector>)
    requires
        -30000 <= radius <= 30000,
    ensures
        forall|p: Vector| #[trigger] r@.contains(p) <==> ring_mem(p, abs_spec(radius as int)),
        forall|j: int, l: int| 0 <= j < l < r@.len() ==> lex_before(r@[j], r@[l]),
{
    let rad: i32 = if radius < 0 {
        -radius
    } else {
        radius
    };
    if rad >= 2 {
        let hole = circle_pts(rad - 2);
        let full = circle_pts(rad);
        let mut out: Vec<Vector> = Vec::new();
        let mut i: usize = 0;
        while i < full.len()
            invariant
                2 <= rad <= 30000,
                rad == abs_spec(radius as int),
                0 <= i <= full@.len(),
                forall|p: Vector| #[trigger] full@.contains(p) <==> in_disk(p, rad as int),
                forall|p: Vector| #[trigger] hole@.contains(p) <==> in_disk(p, rad as int - 2),
                forall|j: int, l: int| 0 <= j < l < full@.len() ==> lex_before(full@[j], full@[l]),
                forall|p: Vector| #[trigger] out@.contains(p) ==> ring_mem(p, rad as int),
                forall|j: int|
                    0 <= j < i ==> (ring_mem(#[trigger] full@[j], rad as int) ==> out@.contains(
                        full@[j],
                    )),
                forall|a: int|
                    0 <= a < out@.len() ==> exists|j: int|
                        0 <= j < i && #[trigger] out@[a] == full@[j],
                forall|a: int, b: int| 0 <= a < b < out@.len() ==> lex_before(out@[a], out@[b]),
            decreases full@.len() - i,
        {
            let p = full[i];
            proof {
                assert(full@.contains(full@[i as int]));
            }
            if !contains_pt(&hole, p) {
                let ghost old_out = out@;
                out.push(p);
                proof {
                    assert(out@[out@.len() - 1] == p);
                    assert forall|a: int| 0 <= a < out@.len() implies exists|j: int|
                        0 <= j < i + 1 && #[trigger] out@[a] == full@[j] by {
                        if a < out@.len() - 1 {
                            assert(out@[a] == old_out[a]);
                            let j = choose|j: int| 0 <= j < i && old_out[a] == full@[j];
                            assert(out@[a] == full@[j]);
                        } else {
                            assert(out@[a] == full@[i as int]);
                        }
                    }
                    assert forall|a: int, b: int| 0 <= a < b < out@.len() implies lex_before(
                        out@[a],
                        out@[b],
                    ) by {
                        if b == out@.len() - 1 {
                            let j = choose|j: int| 0 <= j < i && #[trigger] out@[a] == full@[j];
                            assert(lex_before(full@[j], full@[i as int]));
                        } else {
                            assert(out@[a] == old_out[a] && out@[b] == old_out[b]);
                        }
                    }
                    assert forall|q: Vector| #[trigger] out@.contains(q) implies ring_mem(
                        q,
                        rad as int,
                    ) by {
                        if q != p {
                            assert(old_out.contains(q));
                        }
                    }
                    assert forall|j: int|
                        0 <= j < i + 1 && ring_mem(#[trigger] full@[j], rad as int) implies out@
                        .contains(full@[j]) by {
                        if j < i {
                            let l = choose|l: int|
                                0 <= l < old_out.len() && old_out[l] == full@[j];
                            assert(out@[l] == full@[j]);
                        }
                    }
                }
            }
            i = i + 1;
        }
        proof {
            assert forall|p: Vector| ring_mem(p, rad as int) implies out@.contains(p) by {
                assert(full@.contains(p));
                let j = choose|j: int| 0 <= j < full@.len() && full@[j] == p;
            }
        }
        out
    } else {
        let r = circle_pts(rad);
        r
    }
}

/// Ring thinness: for radii of at least 2 the ring avoids the inner disk
/// entirely.
pub proof fn lemma_ring_disjoint_from_inner_disk(p: Vector, rad: int)
    requires
        rad >= 2,
        ring_mem(p, rad),
    ensures
        !in_disk(p, rad - 2),
{
}

/// For radii below 2 the ring is exactly the full disk.
pub proof fn lemma_ring_small_is_disk(p: Vector, rad: int)
    requires
        rad < 2,
    ensures
        ring_mem(p, rad) <==> in_disk(p, rad),
{
}

/// Every ring offset is componentwise bounded by the radius.
pub proof fn lemma_ring_offset_bounds(p: Vector, rad: int)
    requires
        0 <= rad,
        ring_mem(p, rad),
    ensures
        -rad <= p.x <= rad,
        -rad <= p.y <= rad,
{
    assert((p.x as int) * (p.x as int) >= 0 && (p.y as int) * (p.y as int) >= 0)
        by (nonlinear_arith);
    assert(-rad <= p.x as int && p.x as int <= rad) by (nonlinear_arith)
        requires
            (p.x as int) * (p.x as int) <= rad * rad,
            rad >= 0,
    ;
    assert(-rad <= p.y as int && p.y as int <= rad) by (nonlinear_arith)
        requires
            (p.y as int) * (p.y as int) <= rad * rad,
            rad >= 0,
    ;
}


/// The window-frame position of path step `n` under cumulative shift
/// `(sx, sy)`.
pub open spec fn win_pt(s0: u64, sx: int, sy: int, n: int) -> Vector {
    Vector { x: norm32(walk_x(s0, n) - sx) as i32, y: (n - sy) as i32 }
}

/// Whether the ring stamped along the rasterized segment of path step `n`
/// covers the logical cell `(px, py)`.
pub open spec fn stamp_covers(
    s0: u64,
    sx: int,
    sy: int,
    lim: int,
    rad: int,
    n: int,
    px: int,
    py: int,
) -> bool {
    exists|k: int, rho: Vector|
        #![trigger seg_pt(win_pt(s0, sx, sy, n), win_pt(s0, sx, sy, n + 1), k), ring_mem(rho, rad)]
        0 <= k <= seg_steps(win_pt(s0, sx, sy, n), win_pt(s0, sx, sy, n + 1)) && ring_mem(rho, rad)
            && abs_spec(seg_pt(win_pt(s0, sx, sy, n), win_pt(s0, sx, sy, n + 1), k).x as int) < lim
            && px == seg_pt(win_pt(s0, sx, sy, n), win_pt(s0, sx, sy, n + 1), k).x + rho.x && py
            == seg_pt(win_pt(s0, sx, sy, n), win_pt(s0, sx, sy, n + 1), k).y + rho.y
}

/// Whether any path step in `[n_lo, n_hi)` stamps the logical cell
/// `(px, py)`.
pub open spec fn covered_range(
    s0: u64,
    sx: int,
    sy: int,
    lim: int,
    rad: int,
    n_lo: int,
    n_hi: int,
    px: int,
    py: int,
) -> bool {
    exists|n: int|
        n_lo <= n < n_hi && #[trigger] stamp_covers(s0, sx, sy, lim, rad, n, px, py)
}

/// The canonical content of the logical cell `(px, py)` after the window has
/// been shifted by a cumulative displacement `(sx, sy)`: a pure function of
/// the seed, the geometry parameters, and the shift.
pub open spec fn canon_cell(s0: u64, v: int, rad: int, sx: int, sy: int, px: int, py: int) -> bool {
    covered_range(s0, sx, sy, v + rad, rad, sy - (v + rad) - 1, sy + (v + rad) + 1, px, py)
}

#[derive(Clone)]
pub struct Racetrack {
    grid: Grid,
    path_vel_x: i32,
    path_pos: Vector,
    path_radius: i32,
    carving_ring: Vec<Vector>,
    view_dist: i32,
    rng: Rng,
    seed0: Ghost<u64>,
    steps: Ghost<int>,
    shift: Ghost<(int, int)>,
}

#[derive(Clone, PartialEq, PartialOrd, Debug)]
pub struct RacetrackBuilder {
    pub view_dist: Option<i32>,
    pub path_radius: Option<i32>,
    pub seed: Option<u64>,
}

/// The view distance a builder will produce.
pub open spec fn builder_view_dist(b: RacetrackBuilder) -> int {
    abs_spec(
        match b.view_dist {
            Some(v) => v as int,
            None => 20,
        },
    )
}

/// The path radius a builder will produce.
pub open spec fn builder_path_radius(b: RacetrackBuilder) -> int {
    abs_spec(
        match b.path_radius {
            Some(r) => r as int,
            None => 4,
        },
    )
}

/// The seed a builder will produce; an unset seed falls back to zero (the
/// caller is expected to choose one).
pub open spec fn builder_seed(b: RacetrackBuilder) -> u64 {
    match b.seed {
        Some(s) => s,
        None => 0,
    }
}

/// Machine limits on a builder: parameters small enough that the window
/// buffer and all index arithmetic fit the machine's integers.
pub open spec fn builder_ok(b: RacetrackBuilder) -> bool {
    &&& builder_view_dist(b) <= 0x1000
    &&& builder_path_radius(b) <= 0x1000
}

impl RacetrackBuilder {
    pub fn view_dist(self, view_dist: i32) -> (r: RacetrackBuilder)
        ensures
            r == (RacetrackBuilder { view_dist: Some(view_dist), ..self }),
    {
        RacetrackBuilder { view_dist: Some(view_dist), ..self }
    }

    pub fn path_radius(self, path_radius: i32) -> (r: RacetrackBuilder)
        ensures
            r == (RacetrackBuilder { path_radius: Some(path_radius), ..self }),
    {
        RacetrackBuilder { path_radius: Some(path_radius), ..self }
    }

    pub fn seed(self, seed: u64) -> (r: RacetrackBuilder)
        ensures
            r == (RacetrackBuilder { seed: Some(seed), ..self }),
    {
        RacetrackBuilder { seed: Some(seed), ..self }
    }

    pub fn build(self) -> (r: Racetrack)
        requires
            builder_ok(self),
        ensures
            r.inv(),
            r.canonical_state(),
            r.shift_x() == 0,
            r.shift_y() == 0,
            r.spec_view_dist() == builder_view_dist(self),
            r.spec_path_radius() == builder_path_radius(self),
            r.seed() == builder_seed(self) % MODULUS,
    {
        Racetrack::from_builder(self)
    }
}

impl Racetrack {
    /// The version of the track generation rules.
    pub const VERSION: u32 = 1;

    /// The generator version the track rules were written against; it must
    /// match `Rng::VERSION`.
    pub const RNG_VERSION: u32 = 1;

    pub closed spec fn spec_view_dist(&self) -> int {
        self.view_dist as int
    }

    pub closed spec fn spec_path_radius(&self) -> int {
        self.path_radius as int
    }

    /// The horizontal reach of track generation around the window.
    pub open spec fn limit(&self) -> int {
        self.spec_view_dist() + self.spec_path_radius()
    }

    /// The reduced seed that anchors the path walk.
    pub closed spec fn seed(&self) -> u64 {
        self.seed0@
    }

    /// The current path step index.
    pub closed spec fn steps_idx(&self) -> int {
        self.steps@
    }

    /// The cumulative displacement the window has been translated by.
    pub closed spec fn shift_x(&self) -> int {
        self.shift@.0
    }

    pub closed spec fn shift_y(&self) -> int {
        self.shift@.1
    }

    /// The cell at logical position `pos` of the current window.
    pub open spec fn spec_get(&self, pos: Vector) -> Option<bool> {
        self.grid_view().spec_v_get(pos)
    }

    /// Whether `pos` lies inside the visible window: the square of side
    /// `2 * view_dist + 1` centered on the logical origin.
    pub open spec fn in_window(&self, pos: Vector) -> bool {
        -self.spec_view_dist() <= pos.x <= self.spec_view_dist() && -self.spec_view_dist()
            <= pos.y <= self.spec_view_dist()
    }

    pub closed spec fn grid_view(&self) -> Grid {
        self.grid
    }

    /// Geometry and bookkeeping well-formedness.
    pub closed spec fn params_ok(&self) -> bool {
        &&& self.grid.inv()
        &&& 0 <= self.spec_view_dist()
        &&& 0 <= self.spec_path_radius()
        &&& self.limit() <= 0x2000
        &&& self.grid.spec_width() == 2 * self.spec_view_dist() + 1
        &&& self.grid.spec_height() == 2 * self.spec_view_dist() + 1
        &&& (forall|p: Vector| #[trigger]
            self.carving_ring@.contains(p) <==> ring_mem(p, self.spec_path_radius()))
        &&& self.rng.inv()
        &&& self.seed0@ < MODULUS
    }

    /// The stored generator, momentum and position track the spec walk at
    /// step `steps`, relative to the cumulative shift.
    pub closed spec fn walk_ok(&self) -> bool {
        &&& self.rng.state() == walk_state(self.seed0@, self.steps@)
        &&& self.path_vel_x as int == walk_vel(self.seed0@, self.steps@)
        &&& self.path_pos.x as int == norm32(walk_x(self.seed0@, self.steps@) - self.shift@.0)
        &&& self.path_pos.y as int == self.steps@ - self.shift@.1
    }

    /// Bounds that keep the vertical bookkeeping in exact machine range.
    pub closed spec fn bounds_ok(&self) -> bool {
        &&& abs_spec(self.shift@.1) <= 0x1000_0000
        &&& abs_spec(self.steps@ - self.shift@.1) <= self.limit() + 1
    }

    /// The transient state during construction: the walk is at its origin
    /// and the window has not been populated yet.  Construction ends with a
    /// zero translation, so every track a caller sees is canonical.
    pub closed spec fn fresh_state(&self) -> bool {
        &&& self.steps@ == 0
        &&& self.shift@ == (0int, 0int)
        &&& forall|i: int| 0 <= i < self.grid.cells().len() ==> self.grid.cells()[i] == false
    }

    /// A populated track: every window cell holds its canonical content for
    /// the current cumulative shift.
    pub closed spec fn canonical_state(&self) -> bool {
        &&& self.steps@ == self.shift@.1 + self.limit() + 1
        &&& forall|px: int, py: int|
            #![trigger cell_idx(self.spec_view_dist(), px, py)]
            win_coord(self.spec_view_dist(), px, py) ==> self.grid.cells()[cell_idx(
                self.spec_view_dist(),
                px,
                py,
            )] == canon_cell(
                self.seed0@,
                self.spec_view_dist(),
                self.spec_path_radius(),
                self.shift@.0,
                self.shift@.1,
                px,
                py,
            )
    }

    /// The track invariant: well-formed, tracking the walk, and the grid
    /// either untouched or canonical.
    pub open spec fn inv(&self) -> bool {
        &&& self.params_ok()
        &&& self.walk_ok()
        &&& self.bounds_ok()
        &&& (self.fresh_state() || self.canonical_state())
    }

    pub fn builder() -> (r: RacetrackBuilder)
        ensures
            r == (RacetrackBuilder { view_dist: None, path_radius: None, seed: None }),
    {
        RacetrackBuilder { view_dist: None, path_radius: None, seed: None }
    }

    fn from_builder(builder: RacetrackBuilder) -> (r: Racetrack)
        requires
            builder_ok(builder),
        ensures
            r.inv(),
            r.canonical_state(),
            r.shift_x() == 0,
            r.shift_y() == 0,
            r.spec_view_dist() == builder_view_dist(builder),
            r.spec_path_radius() == builder_path_radius(builder),
            r.seed() == builder_seed(builder) % MODULUS,
    {
        let vd_raw: i32 = match builder.view_dist {
            Some(v) => v,
            None => 20,
        };
        let view_dist: i32 = if vd_raw < 0 {
            -vd_raw
        } else {
            vd_raw
        };
        let pr_raw: i32 = match builder.path_radius {
            Some(r) => r,
            None => 4,
        };
        let path_radius: i32 = if pr_raw < 0 {
            -pr_raw
        } else {
            pr_raw
        };
        let seed: u64 = match builder.seed {
            Some(s) => s,
            None => 0,
        };
        let view_width: usize = (view_dist * 2 + 1) as usize;
        proof {
            assert((view_width as int) * (view_width as int) <= 0x4010001) by (nonlinear_arith)
                requires
                    0 <= view_width as int <= 0x2001,
            ;
        }
        let rng = Rng::with_seed(seed);
        let ghost s0 = rng.state();
        let mut track = Racetrack {
            grid: Grid::new(view_width, view_width),
            path_vel_x: 0,
            path_pos: Vector::new(0, 0),
            path_radius,
            carving_ring: make_ring(path_radius),
            view_dist,
            rng,
            seed0: Ghost(s0),
            steps: Ghost(0int),
            shift: Ghost((0int, 0int)),
        };
        proof {
            reveal(walk_state);
            reveal_with_fuel(walk_vel, 1);
            reveal_with_fuel(walk_x, 1);
            lemma_norm32_id(0);
        }
        track.translate(Vector::new(0, 0));
        track
    }
}

/// Wrapped 32-bit addition, normalized by `norm32`.
fn wadd(a: i32, b: i32) -> (r: i32)
    ensures
        r as int == norm32(a + b),
{
    proof {
        lemma_norm32_cases(a as int + b as int);
    }
    a.wrapping_add(b)
}

/// Wrapped 32-bit subtraction, normalized by `norm32`.
fn wsub(a: i32, b: i32) -> (r: i32)
    ensures
        r as int == norm32(a - b),
{
    proof {
        lemma_norm32_cases(a as int - b as int);
    }
    a.wrapping_sub(b)
}

/// For sums of two 32-bit values, `norm32` is a single wrap correction.
proof fn lemma_norm32_cases(v: int)
    requires
        2 * (i32::MIN as int) <= v <= 2 * (i32::MAX as int) + 1,
    ensures
        v > i32::MAX ==> norm32(v) == v - WRAP,
        v < i32::MIN ==> norm32(v) == v + WRAP,
        i32::MIN <= v <= i32::MAX ==> norm32(v) == v,
{
    let w = WRAP as int;
    if v > i32::MAX {
        assert((v - (v - w)) % w == 0) by {
            vstd::arithmetic::div_mod::lemma_mod_multiples_basic(1, w);
            assert(1 * w == w) by (nonlinear_arith);
        }
        lemma_norm32_eq(v, v - w);
        lemma_norm32_id(v - w);
    } else if v < i32::MIN {
        assert((v - (v + w)) % w == 0) by {
            vstd::arithmetic::div_mod::lemma_mod_multiples_basic(-1, w);
            assert(-1 * w == -w) by (nonlinear_arith);
        }
        lemma_norm32_eq(v, v + w);
        lemma_norm32_id(v + w);
    } else {
        lemma_norm32_id(v);
    }
}


impl Racetrack {
    /// Advances the path one step north: draw one drift, update the
    /// momentum, then move by the new momentum and go up one row.
    fn move_path_north(&mut self)
        requires
            old(self).params_ok(),
            old(self).walk_ok(),
            abs_spec(old(self).steps@) <= 0x2000_0000,
            old(self).path_pos.y < i32::MAX,
        ensures
            final(self).params_ok(),
            final(self).walk_ok(),
            final(self).steps@ == old(self).steps@ + 1,
            final(self).shift@ == old(self).shift@,
            final(self).seed0@ == old(self).seed0@,
            final(self).grid == old(self).grid,
            final(self).carving_ring == old(self).carving_ring,
            final(self).view_dist == old(self).view_dist,
            final(self).path_radius == old(self).path_radius,
            final(self).path_pos.y == old(self).path_pos.y + 1,
            final(self).path_pos == win_pt(
                old(self).seed0@,
                old(self).shift@.0,
                old(self).shift@.1,
                old(self).steps@ + 1,
            ),
    {
        let ghost s0 = self.seed0@;
        let ghost n = self.steps@;
        let ghost sx = self.shift@.0;
        proof {
            lemma_walk_state_bounded(s0, n);
            lemma_drift_bounds(walk_state(s0, n));
            lemma_walk_vel_bound(s0, n);
            lemma_walk_vel_step(s0, n);
            lemma_walk_x_step(s0, n);
            lemma_walk_state_step(s0, n);
            lemma_norm32_range(walk_x(s0, n) - sx);
        }
        let draw = self.rng.forward();
        let d: i32 = (draw / (Rng::RAND_MAX / 3)) as i32 - 1;
        proof {
            assert(d as int == drift(walk_state(s0, n)));
        }
        self.path_vel_x = self.path_vel_x + d;
        self.path_pos.x = wadd(self.path_pos.x, self.path_vel_x);
        self.path_pos.y = self.path_pos.y + 1;
        proof {
            self.steps@ = n + 1;
            assert(self.path_vel_x as int == walk_vel(s0, n + 1));
            lemma_norm32_shift(walk_x(s0, n) - sx, walk_vel(s0, n + 1));
            lemma_norm32_shift(walk_x(s0, n) + walk_vel(s0, n + 1), -sx);
            lemma_norm32_range(walk_x(s0, n + 1) - sx);
        }
    }

    /// Retreats the path one step south: the exact inverse of
    /// `move_path_north` — move back by the current momentum, then un-draw
    /// the drift that produced it.
    fn move_path_south(&mut self)
        requires
            old(self).params_ok(),
            old(self).walk_ok(),
            abs_spec(old(self).steps@) <= 0x2000_0000,
            old(self).path_pos.y > i32::MIN,
        ensures
            final(self).params_ok(),
            final(self).walk_ok(),
            final(self).steps@ == old(self).steps@ - 1,
            final(self).shift@ == old(self).shift@,
            final(self).seed0@ == old(self).seed0@,
            final(self).grid == old(self).grid,
            final(self).carving_ring == old(self).carving_ring,
            final(self).view_dist == old(self).view_dist,
            final(self).path_radius == old(self).path_radius,
            final(self).path_pos.y == old(self).path_pos.y - 1,
    {
        let ghost s0 = self.seed0@;
        let ghost n = self.steps@;
        let ghost sx = self.shift@.0;
        proof {
            lemma_walk_state_bounded(s0, n);
            lemma_walk_state_step(s0, n);
            lemma_walk_state_bounded(s0, n - 1);
            lemma_drift_bounds(walk_state(s0, n - 1));
            lemma_walk_vel_bound(s0, n);
            lemma_walk_vel_bound(s0, n - 1);
            lemma_walk_vel_step(s0, n - 1);
            lemma_walk_x_step(s0, n - 1);
        }
        self.path_pos.x = wsub(self.path_pos.x, self.path_vel_x);
        let s_new = self.rng.backward();
        let d: i32 = (s_new / (Rng::RAND_MAX / 3)) as i32 - 1;
        proof {
            assert(d as int == drift(walk_state(s0, n - 1)));
        }
        self.path_vel_x = self.path_vel_x - d;
        self.path_pos.y = self.path_pos.y - 1;
        proof {
            self.steps@ = n - 1;
            assert(self.path_vel_x as int == walk_vel(s0, n - 1));
            lemma_norm32_shift(walk_x(s0, n) - sx, -walk_vel(s0, n));
            lemma_norm32_congruent(walk_x(s0, n - 1) + walk_vel(s0, n));
            lemma_norm32_eq(
                walk_x(s0, n) - walk_vel(s0, n) - sx,
                walk_x(s0, n - 1) - sx,
            );
            lemma_norm32_range(walk_x(s0, n - 1) - sx);
        }
    }
}


/// Whether `(px, py)` is a logical coordinate of a window with view distance
/// `v`.
pub open spec fn win_coord(v: int, px: int, py: int) -> bool {
    -v <= px <= v && -v <= py <= v
}

/// The row-major buffer index of logical coordinate `(px, py)`.
pub open spec fn cell_idx(v: int, px: int, py: int) -> int {
    (px + v) + (py + v) * (2 * v + 1)
}

/// Distinct window coordinates have distinct buffer indices.
proof fn lemma_cell_idx_inject(v: int, px1: int, py1: int, px2: int, py2: int)
    requires
        v >= 0,
        win_coord(v, px1, py1),
        win_coord(v, px2, py2),
        cell_idx(v, px1, py1) == cell_idx(v, px2, py2),
    ensures
        px1 == px2,
        py1 == py2,
{
    assert(py1 == py2 && px1 == px2) by (nonlinear_arith)
        requires
            v >= 0,
            -v <= px1 <= v,
            -v <= py1 <= v,
            -v <= px2 <= v,
            -v <= py2 <= v,
            (px1 + v) + (py1 + v) * (2 * v + 1) == (px2 + v) + (py2 + v) * (2 * v + 1),
    ;
}

/// Window indices stay inside the buffer.
proof fn lemma_cell_idx_bounds(v: int, px: int, py: int)
    requires
        v >= 0,
        win_coord(v, px, py),
    ensures
        0 <= cell_idx(v, px, py) < (2 * v + 1) * (2 * v + 1),
{
    assert(0 <= (px + v) + (py + v) * (2 * v + 1) && (px + v) + (py + v) * (2 * v + 1) < (2 * v
        + 1) * (2 * v + 1)) by (nonlinear_arith)
        requires
            v >= 0,
            -v <= px <= v,
            -v <= py <= v,
    ;
}

/// The center offset of an odd buffer of width `2 * v + 1` is exactly `v`.
proof fn lemma_center_offset(v: int)
    requires
        v >= 0,
    ensures
        (2 * v + 1) / 2 == v,
{
    vstd::arithmetic::div_mod::lemma_div_multiples_vanish_fancy(v, 1, 2);
    assert(2 * v + 1 == 2 * v + 1);
}

/// The part of one step's stamp laid down by the first `k_hi` segment
/// points.
spec fn stamp_prefix_covers(
    a: Vector,
    b: Vector,
    k_hi: int,
    rad: int,
    lim: int,
    px: int,
    py: int,
) -> bool {
    exists|k: int, rho: Vector|
        #![trigger seg_pt(a, b, k), ring_mem(rho, rad)]
        0 <= k < k_hi && k <= seg_steps(a, b) && ring_mem(rho, rad) && abs_spec(
            seg_pt(a, b, k).x as int,
        ) < lim && px == seg_pt(a, b, k).x + rho.x && py == seg_pt(a, b, k).y + rho.y
}

/// The part of one point's stamp laid down by the first `j_hi` ring offsets.
spec fn ring_prefix_covers(c: Vector, ring: Seq<Vector>, j_hi: int, px: int, py: int) -> bool {
    exists|j: int|
        0 <= j < j_hi && px == c.x + (#[trigger] ring[j]).x && py == c.y + ring[j].y
}

proof fn lemma_ring_prefix_step(c: Vector, ring: Seq<Vector>, j: int, px: int, py: int)
    requires
        0 <= j < ring.len(),
    ensures
        ring_prefix_covers(c, ring, j + 1, px, py) <==> (ring_prefix_covers(c, ring, j, px, py)
            || (px == c.x + ring[j].x && py == c.y + ring[j].y)),
{
    if ring_prefix_covers(c, ring, j + 1, px, py) {
        let l = choose|l: int|
            0 <= l < j + 1 && px == c.x + (#[trigger] ring[l]).x && py == c.y + ring[l].y;
        if l < j {
            assert(ring_prefix_covers(c, ring, j, px, py));
        }
    }
    if ring_prefix_covers(c, ring, j, px, py) {
        let l = choose|l: int|
            0 <= l < j && px == c.x + (#[trigger] ring[l]).x && py == c.y + ring[l].y;
        assert(0 <= l < j + 1 && px == c.x + ring[l].x && py == c.y + ring[l].y);
    }
    if px == c.x + ring[j].x && py == c.y + ring[j].y {
        assert(0 <= j < j + 1 && px == c.x + ring[j].x && py == c.y + ring[j].y);
    }
}

/// A full pass over the ring covers exactly the ring-translated copies of
/// `c`.
proof fn lemma_ring_prefix_full(c: Vector, ring: Seq<Vector>, rad: int, px: int, py: int)
    requires
        forall|p: Vector| #[trigger] ring.contains(p) <==> ring_mem(p, rad),
    ensures
        ring_prefix_covers(c, ring, ring.len() as int, px, py) <==> (exists|rho: Vector|
            #[trigger] ring_mem(rho, rad) && px == c.x + rho.x && py == c.y + rho.y),
{
    if ring_prefix_covers(c, ring, ring.len() as int, px, py) {
        let l = choose|l: int|
            0 <= l < ring.len() && px == c.x + (#[trigger] ring[l]).x && py == c.y + ring[l].y;
        let rho = ring[l];
        assert(ring.contains(rho));
        assert(ring_mem(rho, rad) && px == c.x + rho.x && py == c.y + rho.y);
    }
    if exists|rho: Vector| #[trigger] ring_mem(rho, rad) && px == c.x + rho.x && py == c.y
        + rho.y {
        let rho = choose|rho: Vector|
            #[trigger] ring_mem(rho, rad) && px == c.x + rho.x && py == c.y + rho.y;
        assert(ring.contains(rho));
        let l = choose|l: int| 0 <= l < ring.len() && ring[l] == rho;
        assert(0 <= l < ring.len() && px == c.x + ring[l].x && py == c.y + ring[l].y);
    }
}

proof fn lemma_stamp_prefix_step(
    a: Vector,
    b: Vector,
    k: int,
    rad: int,
    lim: int,
    px: int,
    py: int,
)
    requires
        0 <= k <= seg_steps(a, b),
    ensures
        stamp_prefix_covers(a, b, k + 1, rad, lim, px, py) <==> (stamp_prefix_covers(
            a,
            b,
            k,
            rad,
            lim,
            px,
            py,
        ) || (abs_spec(seg_pt(a, b, k).x as int) < lim && exists|rho: Vector|
            #[trigger] ring_mem(rho, rad) && px == seg_pt(a, b, k).x + rho.x && py == seg_pt(
                a,
                b,
                k,
            ).y + rho.y)),
{
    if stamp_prefix_covers(a, b, k + 1, rad, lim, px, py) {
        let (l, rho) = choose|l: int, rho: Vector|
            #![trigger seg_pt(a, b, l), ring_mem(rho, rad)]
            0 <= l < k + 1 && l <= seg_steps(a, b) && ring_mem(rho, rad) && abs_spec(
                seg_pt(a, b, l).x as int,
            ) < lim && px == seg_pt(a, b, l).x + rho.x && py == seg_pt(a, b, l).y + rho.y;
        if l < k {
            assert(stamp_prefix_covers(a, b, k, rad, lim, px, py));
        } else {
            assert(ring_mem(rho, rad) && px == seg_pt(a, b, k).x + rho.x && py == seg_pt(
                a,
                b,
                k,
            ).y + rho.y);
        }
    }
    if stamp_prefix_covers(a, b, k, rad, lim, px, py) {
        let (l, rho) = choose|l: int, rho: Vector|
            #![trigger seg_pt(a, b, l), ring_mem(rho, rad)]
            0 <= l < k && l <= seg_steps(a, b) && ring_mem(rho, rad) && abs_spec(
                seg_pt(a, b, l).x as int,
            ) < lim && px == seg_pt(a, b, l).x + rho.x && py == seg_pt(a, b, l).y + rho.y;
        assert(0 <= l < k + 1 && l <= seg_steps(a, b) && ring_mem(rho, rad) && abs_spec(
            seg_pt(a, b, l).x as int,
        ) < lim && px == seg_pt(a, b, l).x + rho.x && py == seg_pt(a, b, l).y + rho.y);
    }
    if abs_spec(seg_pt(a, b, k).x as int) < lim && exists|rho: Vector|
        #[trigger] ring_mem(rho, rad) && px == seg_pt(a, b, k).x + rho.x && py == seg_pt(
        a,
        b,
        k,
    ).y + rho.y {
        let rho = choose|rho: Vector|
            #[trigger] ring_mem(rho, rad) && px == seg_pt(a, b, k).x + rho.x && py == seg_pt(
                a,
                b,
                k,
            ).y + rho.y;
        assert(0 <= k < k + 1 && k <= seg_steps(a, b) && ring_mem(rho, rad) && abs_spec(
            seg_pt(a, b, k).x as int,
        ) < lim && px == seg_pt(a, b, k).x + rho.x && py == seg_pt(a, b, k).y + rho.y);
    }
}

/// A complete pass over one step's segment is exactly that step's stamp.
proof fn lemma_stamp_prefix_full(
    s0: u64,
    sx: int,
    sy: int,
    lim: int,
    rad: int,
    n: int,
    px: int,
    py: int,
)
    ensures
        stamp_prefix_covers(
            win_pt(s0, sx, sy, n),
            win_pt(s0, sx, sy, n + 1),
            seg_steps(win_pt(s0, sx, sy, n), win_pt(s0, sx, sy, n + 1)) as int + 1,
            rad,
            lim,
            px,
            py,
        ) <==> stamp_covers(s0, sx, sy, lim, rad, n, px, py),
{
    let a = win_pt(s0, sx, sy, n);
    let b = win_pt(s0, sx, sy, n + 1);
    let hi = seg_steps(a, b) + 1;
    if stamp_prefix_covers(a, b, hi as int, rad, lim, px, py) {
        let (l, rho) = choose|l: int, rho: Vector|
            #![trigger seg_pt(a, b, l), ring_mem(rho, rad)]
            0 <= l < hi && l <= seg_steps(a, b) && ring_mem(rho, rad) && abs_spec(
                seg_pt(a, b, l).x as int,
            ) < lim && px == seg_pt(a, b, l).x + rho.x && py == seg_pt(a, b, l).y + rho.y;
        assert(stamp_covers(s0, sx, sy, lim, rad, n, px, py));
    }
    if stamp_covers(s0, sx, sy, lim, rad, n, px, py) {
        let (l, rho) = choose|l: int, rho: Vector|
            #![trigger seg_pt(a, b, l), ring_mem(rho, rad)]
            0 <= l <= seg_steps(a, b) && ring_mem(rho, rad) && abs_spec(seg_pt(a, b, l).x as int)
                < lim && px == seg_pt(a, b, l).x + rho.x && py == seg_pt(a, b, l).y + rho.y;
        assert(0 <= l < hi && l <= seg_steps(a, b) && ring_mem(rho, rad) && abs_spec(
            seg_pt(a, b, l).x as int,
        ) < lim && px == seg_pt(a, b, l).x + rho.x && py == seg_pt(a, b, l).y + rho.y);
    }
}

proof fn lemma_covered_range_extend(
    s0: u64,
    sx: int,
    sy: int,
    lim: int,
    rad: int,
    lo: int,
    hi: int,
    px: int,
    py: int,
)
    requires
        lo <= hi,
    ensures
        covered_range(s0, sx, sy, lim, rad, lo, hi + 1, px, py) <==> (covered_range(
            s0,
            sx,
            sy,
            lim,
            rad,
            lo,
            hi,
            px,
            py,
        ) || stamp_covers(s0, sx, sy, lim, rad, hi, px, py)),
{
    if covered_range(s0, sx, sy, lim, rad, lo, hi + 1, px, py) {
        let n = choose|n: int|
            lo <= n < hi + 1 && #[trigger] stamp_covers(s0, sx, sy, lim, rad, n, px, py);
        if n < hi {
            assert(covered_range(s0, sx, sy, lim, rad, lo, hi, px, py));
        }
    }
    if covered_range(s0, sx, sy, lim, rad, lo, hi, px, py) {
        let n = choose|n: int|
            lo <= n < hi && #[trigger] stamp_covers(s0, sx, sy, lim, rad, n, px, py);
        assert(lo <= n < hi + 1 && stamp_covers(s0, sx, sy, lim, rad, n, px, py));
    }
    if stamp_covers(s0, sx, sy, lim, rad, hi, px, py) {
        assert(lo <= hi < hi + 1 && stamp_covers(s0, sx, sy, lim, rad, hi, px, py));
    }
}

/// A step whose segment lies entirely below the window stamps nothing a
/// window cell can see.
proof fn lemma_stamp_noop_below(
    s0: u64,
    sx: int,
    sy: int,
    v: int,
    rad: int,
    n: int,
    px: int,
    py: int,
)
    requires
        v >= 0,
        rad >= 0,
        n + 1 - sy <= -(v + rad) - 1,
        -0x4000_0000 <= n - sy,
        py >= -v,
    ensures
        !stamp_covers(s0, sx, sy, v + rad, rad, n, px, py),
{
    let a = win_pt(s0, sx, sy, n);
    let b = win_pt(s0, sx, sy, n + 1);
    assert(a.y as int == n - sy);
    assert(b.y as int == n + 1 - sy);
    if stamp_covers(s0, sx, sy, v + rad, rad, n, px, py) {
        let (k, rho) = choose|k: int, rho: Vector|
            #![trigger seg_pt(a, b, k), ring_mem(rho, rad)]
            0 <= k <= seg_steps(a, b) && ring_mem(rho, rad) && abs_spec(seg_pt(a, b, k).x as int)
                < v + rad && px == seg_pt(a, b, k).x + rho.x && py == seg_pt(a, b, k).y + rho.y;
        lemma_seg_pt_hull(a, b, k);
        lemma_ring_offset_bounds(rho, rad);
        assert(seg_pt(a, b, k).y as int <= n + 1 - sy);
        assert(py <= n + 1 - sy + rad);
        assert(py <= -v - 1);
    }
}

/// Dropping a prefix of steps that stamp nothing leaves the covered range
/// unchanged.
proof fn lemma_covered_range_chop(
    s0: u64,
    sx: int,
    sy: int,
    lim: int,
    rad: int,
    lo1: int,
    lo2: int,
    hi: int,
    px: int,
    py: int,
)
    requires
        lo1 <= lo2 <= hi,
        forall|n: int|
            lo1 <= n < lo2 ==> !#[trigger] stamp_covers(s0, sx, sy, lim, rad, n, px, py),
    ensures
        covered_range(s0, sx, sy, lim, rad, lo1, hi, px, py) <==> covered_range(
            s0,
            sx,
            sy,
            lim,
            rad,
            lo2,
            hi,
            px,
            py,
        ),
{
    if covered_range(s0, sx, sy, lim, rad, lo1, hi, px, py) {
        let n = choose|n: int|
            lo1 <= n < hi && #[trigger] stamp_covers(s0, sx, sy, lim, rad, n, px, py);
        assert(n >= lo2);
        assert(covered_range(s0, sx, sy, lim, rad, lo2, hi, px, py));
    }
    if covered_range(s0, sx, sy, lim, rad, lo2, hi, px, py) {
        let n = choose|n: int|
            lo2 <= n < hi && #[trigger] stamp_covers(s0, sx, sy, lim, rad, n, px, py);
        assert(lo1 <= n < hi && stamp_covers(s0, sx, sy, lim, rad, n, px, py));
    }
}

/// The rasterized segment stays inside its endpoints' bounding box.
proof fn lemma_seg_pt_hull(a: Vector, b: Vector, k: int)
    requires
        0 <= k <= seg_steps(a, b),
    ensures
        seg_pt(a, b, k).y as int <= vstd::math::max(a.y as int, b.y as int),
        vstd::math::min(a.y as int, b.y as int) <= seg_pt(a, b, k).y as int,
        seg_pt(a, b, k).x as int <= vstd::math::max(a.x as int, b.x as int),
        vstd::math::min(a.x as int, b.x as int) <= seg_pt(a, b, k).x as int,
{
    crate::vector::lemma_seg_pt_bounds(a, b, k);
}


impl Racetrack {
    /// Rewinds the path south until its row is strictly below `-limit`.
    fn rewind_south(&mut self, limit: i32)
        requires
            old(self).params_ok(),
            old(self).walk_ok(),
            limit as int == old(self).limit(),
            abs_spec(old(self).shift@.1) <= 0x1000_0000,
            abs_spec(old(self).steps@) <= 0x1000_2001,
        ensures
            final(self).params_ok(),
            final(self).walk_ok(),
            final(self).seed0@ == old(self).seed0@,
            final(self).shift@ == old(self).shift@,
            final(self).grid == old(self).grid,
            final(self).carving_ring == old(self).carving_ring,
            final(self).view_dist == old(self).view_dist,
            final(self).path_radius == old(self).path_radius,
            final(self).steps@ <= final(self).shift@.1 - (limit as int) - 1,
            final(self).steps@ == old(self).steps@ || final(self).steps@ == final(self).shift@.1
                - (limit as int) - 1,
            abs_spec(final(self).steps@) <= 0x1000_2001,
    {
        let ghost syn = self.shift@.1;
        let ghost n0 = self.steps@;
        while self.path_pos.y >= -limit
            invariant
                self.params_ok(),
                self.walk_ok(),
                self.seed0@ == old(self).seed0@,
                self.shift@ == old(self).shift@,
                self.grid == old(self).grid,
                self.carving_ring == old(self).carving_ring,
                self.view_dist == old(self).view_dist,
                self.path_radius == old(self).path_radius,
                limit as int == self.limit(),
                syn == self.shift@.1,
                abs_spec(syn) <= 0x1000_0000,
                abs_spec(n0) <= 0x1000_2001,
                self.steps@ == n0 || self.steps@ >= syn - (limit as int) - 1,
                self.steps@ <= n0,
            decreases self.path_pos.y + limit + 1,
        {
            proof {
                assert(self.path_pos.y as int == self.steps@ - syn);
                assert(abs_spec(self.steps@) <= 0x1000_2001);
            }
            self.move_path_south();
        }
    }

    /// Stamps the carving ring along the rasterized segment between two
    /// consecutive window-frame path points, extending the covered step range
    /// from `[n_lo, n)` to `[n_lo, n + 1)`.
    #[verifier::rlimit(80)]
    fn stamp_segment(
        &mut self,
        from: Vector,
        to: Vector,
        limit: i32,
        Ghost(n_lo): Ghost<int>,
        Ghost(n): Ghost<int>,
    )
        requires
            old(self).params_ok(),
            limit as int == old(self).limit(),
            from == win_pt(old(self).seed0@, old(self).shift@.0, old(self).shift@.1, n),
            to == win_pt(old(self).seed0@, old(self).shift@.0, old(self).shift@.1, n + 1),
            abs_spec(old(self).shift@.1) <= 0x1000_0000,
            abs_spec(n - old(self).shift@.1) <= 0x2000_4001,
            n_lo <= n,
            forall|px: int, py: int|
                #![trigger cell_idx(old(self).spec_view_dist(), px, py)]
                win_coord(old(self).spec_view_dist(), px, py) ==> old(self).grid.cells()[cell_idx(
                    old(self).spec_view_dist(),
                    px,
                    py,
                )] == covered_range(
                    old(self).seed0@,
                    old(self).shift@.0,
                    old(self).shift@.1,
                    old(self).limit(),
                    old(self).spec_path_radius(),
                    n_lo,
                    n,
                    px,
                    py,
                ),
        ensures
            final(self).params_ok(),
            final(self).seed0@ == old(self).seed0@,
            final(self).shift@ == old(self).shift@,
            final(self).steps == old(self).steps,
            final(self).rng == old(self).rng,
            final(self).path_pos == old(self).path_pos,
            final(self).path_vel_x == old(self).path_vel_x,
            final(self).carving_ring == old(self).carving_ring,
            final(self).view_dist == old(self).view_dist,
            final(self).path_radius == old(self).path_radius,
            forall|px: int, py: int|
                #![trigger cell_idx(final(self).spec_view_dist(), px, py)]
                win_coord(final(self).spec_view_dist(), px, py) ==> final(self).grid.cells()[
                    cell_idx(final(self).spec_view_dist(), px, py)] == covered_range(
                    final(self).seed0@,
                    final(self).shift@.0,
                    final(self).shift@.1,
                    final(self).limit(),
                    final(self).spec_path_radius(),
                    n_lo,
                    n + 1,
                    px,
                    py,
                ),
    {
        let ghost s0 = self.seed0@;
        let ghost sxn = self.shift@.0;
        let ghost syn = self.shift@.1;
        let ghost v = self.spec_view_dist();
        let ghost rad = self.spec_path_radius();
        let ghost lim = v + rad;
        let pts = from.segment_pts(to);
        let mut k: usize = 0;
        while k < pts.len()
            invariant
                self.params_ok(),
                self.seed0@ == s0,
                self.shift@ == (sxn, syn),
                self.steps == old(self).steps,
                self.rng == old(self).rng,
                self.path_pos == old(self).path_pos,
                self.path_vel_x == old(self).path_vel_x,
                self.carving_ring == old(self).carving_ring,
                self.view_dist == old(self).view_dist,
                self.path_radius == old(self).path_radius,
                self.spec_view_dist() == v,
                self.spec_path_radius() == rad,
                lim == v + rad,
                limit as int == lim,
                abs_spec(syn) <= 0x1000_0000,
                abs_spec(n - syn) <= 0x2000_4001,
                from == win_pt(s0, sxn, syn, n),
                to == win_pt(s0, sxn, syn, n + 1),
                pts@.len() == seg_steps(from, to) + 1,
                forall|l: int| 0 <= l < pts@.len() ==> #[trigger] pts@[l] == seg_pt(from, to, l),
                0 <= k <= pts@.len(),
                forall|px: int, py: int|
                    #![trigger cell_idx(v, px, py)]
                    win_coord(v, px, py) ==> self.grid.cells()[cell_idx(v, px, py)] == (
                    covered_range(s0, sxn, syn, lim, rad, n_lo, n, px, py)
                        || stamp_prefix_covers(from, to, k as int, rad, lim, px, py)),
            decreases pts@.len() - k,
        {
            let c = pts[k];
            proof {
                assert(c == seg_pt(from, to, k as int));
                lemma_seg_pt_hull(from, to, k as int);
            }
            if -limit < c.x && c.x < limit {
                self.stamp_ring(c, Ghost(n_lo), Ghost(n), Ghost(from), Ghost(to), Ghost(k as int));
            } else {
                proof {
                    assert(abs_spec(c.x as int) >= lim);
                    assert forall|px: int, py: int| #![trigger cell_idx(v, px, py)] win_coord(v, px, py) implies self.grid.cells()[
                        cell_idx(v, px, py)] == (covered_range(
                        s0,
                        sxn,
                        syn,
                        lim,
                        rad,
                        n_lo,
                        n,
                        px,
                        py,
                    ) || stamp_prefix_covers(from, to, k as int + 1, rad, lim, px, py)) by {
                        assert(self.grid.cells()[cell_idx(v, px, py)] == (covered_range(
                            s0,
                            sxn,
                            syn,
                            lim,
                            rad,
                            n_lo,
                            n,
                            px,
                            py,
                        ) || stamp_prefix_covers(from, to, k as int, rad, lim, px, py)));
                        lemma_stamp_prefix_step(from, to, k as int, rad, lim, px, py);
                    }
                }
            }
            k = k + 1;
        }
        proof {
            assert forall|px: int, py: int| #![trigger cell_idx(v, px, py)] win_coord(v, px, py) implies self.grid.cells()[
                cell_idx(v, px, py)] == covered_range(
                s0,
                sxn,
                syn,
                lim,
                rad,
                n_lo,
                n + 1,
                px,
                py,
            ) by {
                assert(self.grid.cells()[cell_idx(v, px, py)] == (covered_range(
                    s0,
                    sxn,
                    syn,
                    lim,
                    rad,
                    n_lo,
                    n,
                    px,
                    py,
                ) || stamp_prefix_covers(from, to, k as int, rad, lim, px, py)));
                assert(k as int == seg_steps(from, to) + 1);
                lemma_stamp_prefix_full(s0, sxn, syn, lim, rad, n, px, py);
                lemma_covered_range_extend(s0, sxn, syn, lim, rad, n_lo, n, px, py);
            }
        }
    }

    /// Writes the whole carving ring around one accepted segment point.
    #[verifier::rlimit(80)]
    fn stamp_ring(
        &mut self,
        c: Vector,
        Ghost(n_lo): Ghost<int>,
        Ghost(n): Ghost<int>,
        Ghost(from): Ghost<Vector>,
        Ghost(to): Ghost<Vector>,
        Ghost(k): Ghost<int>,
    )
        requires
            old(self).params_ok(),
            from == win_pt(old(self).seed0@, old(self).shift@.0, old(self).shift@.1, n),
            to == win_pt(old(self).seed0@, old(self).shift@.0, old(self).shift@.1, n + 1),
            abs_spec(old(self).shift@.1) <= 0x1000_0000,
            abs_spec(n - old(self).shift@.1) <= 0x2000_4001,
            0 <= k <= seg_steps(from, to),
            c == seg_pt(from, to, k),
            abs_spec(c.x as int) < old(self).limit(),
            forall|px: int, py: int|
                #![trigger cell_idx(old(self).spec_view_dist(), px, py)]
                win_coord(old(self).spec_view_dist(), px, py) ==> old(self).grid.cells()[cell_idx(
                    old(self).spec_view_dist(),
                    px,
                    py,
                )] == (covered_range(
                    old(self).seed0@,
                    old(self).shift@.0,
                    old(self).shift@.1,
                    old(self).limit(),
                    old(self).spec_path_radius(),
                    n_lo,
                    n,
                    px,
                    py,
                ) || stamp_prefix_covers(
                    from,
                    to,
                    k,
                    old(self).spec_path_radius(),
                    old(self).limit(),
                    px,
                    py,
                )),
        ensures
            final(self).params_ok(),
            final(self).seed0@ == old(self).seed0@,
            final(self).shift@ == old(self).shift@,
            final(self).steps == old(self).steps,
            final(self).rng == old(self).rng,
            final(self).path_pos == old(self).path_pos,
            final(self).path_vel_x == old(self).path_vel_x,
            final(self).carving_ring == old(self).carving_ring,
            final(self).view_dist == old(self).view_dist,
            final(self).path_radius == old(self).path_radius,
            forall|px: int, py: int|
                #![trigger cell_idx(final(self).spec_view_dist(), px, py)]
                win_coord(final(self).spec_view_dist(), px, py) ==> final(self).grid.cells()[
                    cell_idx(final(self).spec_view_dist(), px, py)] == (covered_range(
                    final(self).seed0@,
                    final(self).shift@.0,
                    final(self).shift@.1,
                    final(self).limit(),
                    final(self).spec_path_radius(),
                    n_lo,
                    n,
                    px,
                    py,
                ) || stamp_prefix_covers(
                    from,
                    to,
                    k + 1,
                    final(self).spec_path_radius(),
                    final(self).limit(),
                    px,
                    py,
                )),
    {
        let ghost s0 = self.seed0@;
        let ghost sxn = self.shift@.0;
        let ghost syn = self.shift@.1;
        let ghost v = self.spec_view_dist();
        let ghost rad = self.spec_path_radius();
        let ghost lim = v + rad;
        proof {
            lemma_seg_pt_hull(from, to, k);
            assert(from.y as int == n - syn);
            assert(to.y as int == n + 1 - syn);
        }
        let mut j: usize = 0;
        while j < self.carving_ring.len()
            invariant
                self.params_ok(),
                self.seed0@ == s0,
                self.shift@ == (sxn, syn),
                self.steps == old(self).steps,
                self.rng == old(self).rng,
                self.path_pos == old(self).path_pos,
                self.path_vel_x == old(self).path_vel_x,
                self.carving_ring == old(self).carving_ring,
                self.view_dist == old(self).view_dist,
                self.path_radius == old(self).path_radius,
                self.spec_view_dist() == v,
                self.spec_path_radius() == rad,
                lim == v + rad,
                abs_spec(c.x as int) < lim,
                -0x2000_4003 <= c.y as int <= 0x2000_4003,
                0 <= j <= self.carving_ring@.len(),
                forall|px: int, py: int|
                    #![trigger cell_idx(v, px, py)]
                    win_coord(v, px, py) ==> self.grid.cells()[cell_idx(v, px, py)] == (
                    covered_range(s0, sxn, syn, lim, rad, n_lo, n, px, py)
                        || stamp_prefix_covers(from, to, k, rad, lim, px, py)
                        || ring_prefix_covers(c, self.carving_ring@, j as int, px, py)),
            decreases self.carving_ring@.len() - j,
        {
            let rho = self.carving_ring[j];
            proof {
                assert(self.carving_ring@.contains(rho));
                assert(ring_mem(rho, rad));
                lemma_ring_offset_bounds(rho, rad);
            }
            let q = c.add(rho);
            let ghost oldcells = self.grid.cells();
            let ghost ring_seq = self.carving_ring@;
            let wrote = self.grid.v_get_mut(q, true);
            proof {
                lemma_center_offset(v);
                assert(self.grid.off().x == v && self.grid.off().y == v);
                assert forall|px: int, py: int| #![trigger cell_idx(v, px, py)] win_coord(v, px, py) implies self.grid.cells()[
                    cell_idx(v, px, py)] == (covered_range(
                    s0,
                    sxn,
                    syn,
                    lim,
                    rad,
                    n_lo,
                    n,
                    px,
                    py,
                ) || stamp_prefix_covers(from, to, k, rad, lim, px, py) || ring_prefix_covers(
                    c,
                    ring_seq,
                    j + 1,
                    px,
                    py,
                )) by {
                    assert(oldcells[cell_idx(v, px, py)] == (covered_range(
                        s0,
                        sxn,
                        syn,
                        lim,
                        rad,
                        n_lo,
                        n,
                        px,
                        py,
                    ) || stamp_prefix_covers(from, to, k, rad, lim, px, py)
                        || ring_prefix_covers(c, ring_seq, j as int, px, py)));
                    lemma_ring_prefix_step(c, ring_seq, j as int, px, py);
                    lemma_cell_idx_bounds(v, px, py);
                    if wrote {
                        assert(win_coord(v, q.x as int, q.y as int));
                        lemma_cell_idx_bounds(v, q.x as int, q.y as int);
                        assert(cell_idx(v, q.x as int, q.y as int) == (q.x + v) + (q.y + v) * (2
                            * v + 1));
                        assert(self.grid.cells() == oldcells.update(
                            cell_idx(v, q.x as int, q.y as int),
                            true,
                        ));
                        if px == q.x as int && py == q.y as int {
                            assert(self.grid.cells()[cell_idx(v, px, py)] == true);
                            assert(px == c.x + ring_seq[j as int].x && py == c.y + ring_seq[
                                j as int].y);
                            assert(ring_prefix_covers(c, ring_seq, j + 1, px, py));
                        } else {
                            if cell_idx(v, px, py) == cell_idx(v, q.x as int, q.y as int) {
                                lemma_cell_idx_inject(v, px, py, q.x as int, q.y as int);
                            }
                            assert(self.grid.cells()[cell_idx(v, px, py)] == oldcells[cell_idx(
                                v,
                                px,
                                py,
                            )]);
                            assert(!(px == c.x + ring_seq[j as int].x && py == c.y + ring_seq[
                                j as int].y));
                        }
                    } else {
                        assert(!win_coord(v, q.x as int, q.y as int));
                        assert(!(px == c.x + ring_seq[j as int].x && py == c.y + ring_seq[
                            j as int].y));
                    }
                }
            }
            j = j + 1;
        }
        proof {
            assert forall|px: int, py: int| #![trigger cell_idx(v, px, py)] win_coord(v, px, py) implies self.grid.cells()[
                cell_idx(v, px, py)] == (covered_range(s0, sxn, syn, lim, rad, n_lo, n, px, py)
                || stamp_prefix_covers(from, to, k + 1, rad, lim, px, py)) by {
                assert(self.grid.cells()[cell_idx(v, px, py)] == (covered_range(
                    s0,
                    sxn,
                    syn,
                    lim,
                    rad,
                    n_lo,
                    n,
                    px,
                    py,
                ) || stamp_prefix_covers(from, to, k, rad, lim, px, py) || ring_prefix_covers(
                    c,
                    self.carving_ring@,
                    self.carving_ring@.len() as int,
                    px,
                    py,
                )));
                lemma_ring_prefix_full(c, self.carving_ring@, rad, px, py);
                lemma_stamp_prefix_step(from, to, k, rad, lim, px, py);
            }
        }
    }

    /// Translates the visible window by `dpos` and rebuilds the grid.  The
    /// resulting state — path bookkeeping and every grid cell — is a pure
    /// function of the seed, the geometry parameters and the new cumulative
    /// shift, regardless of how that shift was split over calls.
    #[verifier::rlimit(80)]
    pub fn translate(&mut self, dpos: Vector)
        requires
            old(self).inv(),
            abs_spec(old(self).shift_y() + dpos.y) <= 0x1000_0000,
        ensures
            final(self).inv(),
            final(self).canonical_state(),
            final(self).shift_x() == old(self).shift_x() + dpos.x,
            final(self).shift_y() == old(self).shift_y() + dpos.y,
            final(self).seed() == old(self).seed(),
            final(self).spec_view_dist() == old(self).spec_view_dist(),
            final(self).spec_path_radius() == old(self).spec_path_radius(),
    {
        let ghost s0 = self.seed0@;
        let ghost sx_old = self.shift@.0;
        let ghost sy_old = self.shift@.1;
        let ghost sxn = sx_old + dpos.x as int;
        let ghost syn = sy_old + dpos.y as int;
        let ghost v = self.spec_view_dist();
        let ghost rad = self.spec_path_radius();
        let ghost lim = v + rad;
        let limit: i32 = self.view_dist + self.path_radius;
        let ghost n0 = self.steps@;

        self.grid.clear();
        self.path_pos.x = wsub(self.path_pos.x, dpos.x);
        let y_new: i64 = self.path_pos.y as i64 - dpos.y as i64;
        proof {
            assert(abs_spec(n0 - sy_old) <= lim + 1);
            assert(abs_spec(sy_old) <= 0x1000_0000);
            assert(abs_spec(n0) <= 0x1000_2001);
            assert(y_new == n0 - syn);
            assert(-0x3000_0000 <= y_new <= 0x3000_0000);
        }
        self.path_pos.y = y_new as i32;
        proof {
            self.shift@ = (sxn, syn);
            lemma_norm32_shift(walk_x(s0, n0) - sx_old, -(dpos.x as int));
            assert(self.path_pos.x as int == norm32(walk_x(s0, n0) - sxn));
            lemma_norm32_range(walk_x(s0, n0) - sxn);
        }
        self.rewind_south(limit);
        let ghost n_start = self.steps@;
        proof {
            assert(n_start <= syn - lim - 1);
            assert forall|px: int, py: int| #![trigger cell_idx(v, px, py)] win_coord(v, px, py) implies self.grid.cells()[
                cell_idx(v, px, py)] == covered_range(
                s0,
                sxn,
                syn,
                lim,
                rad,
                n_start,
                n_start,
                px,
                py,
            ) by {
                lemma_cell_idx_bounds(v, px, py);
                assert(!covered_range(s0, sxn, syn, lim, rad, n_start, n_start, px, py));
            }
        }
        while self.path_pos.y <= limit
            invariant
                self.params_ok(),
                self.walk_ok(),
                self.seed0@ == s0,
                self.shift@ == (sxn, syn),
                self.spec_view_dist() == v,
                self.spec_path_radius() == rad,
                lim == v + rad,
                limit as int == lim,
                abs_spec(syn) <= 0x1000_0000,
                abs_spec(n_start) <= 0x1000_2001,
                n_start <= self.steps@ <= syn + lim + 1,
                n_start <= syn - lim - 1,
                forall|px: int, py: int|
                    #![trigger cell_idx(v, px, py)]
                    win_coord(v, px, py) ==> self.grid.cells()[cell_idx(v, px, py)]
                        == covered_range(
                        s0,
                        sxn,
                        syn,
                        lim,
                        rad,
                        n_start,
                        self.steps@,
                        px,
                        py,
                    ),
            decreases limit + 1 - self.path_pos.y,
        {
            let ghost n = self.steps@;
            let from = self.path_pos;
            proof {
                lemma_norm32_range(walk_x(s0, n) - sxn);
                assert(from.x as int == norm32(walk_x(s0, n) - sxn));
                assert(from.y as int == n - syn);
                assert(from == win_pt(s0, sxn, syn, n));
                assert(abs_spec(n) <= 0x1000_2001);
            }
            self.move_path_north();
            let to = self.path_pos;
            proof {
                assert(to == win_pt(s0, sxn, syn, n + 1));
                assert(abs_spec(n - syn) <= 0x2000_4001);
            }
            self.stamp_segment(from, to, limit, Ghost(n_start), Ghost(n));
        }
        proof {
            assert(self.steps@ == syn + lim + 1);
            assert forall|px: int, py: int| #![trigger cell_idx(v, px, py)] win_coord(v, px, py) implies self.grid.cells()[
                cell_idx(v, px, py)] == canon_cell(s0, v, rad, sxn, syn, px, py) by {
                assert(self.grid.cells()[cell_idx(v, px, py)] == covered_range(
                    s0,
                    sxn,
                    syn,
                    lim,
                    rad,
                    n_start,
                    self.steps@,
                    px,
                    py,
                ));
                assert forall|n: int| n_start <= n < syn - lim - 1 implies !#[trigger] stamp_covers(
                    s0,
                    sxn,
                    syn,
                    lim,
                    rad,
                    n,
                    px,
                    py,
                ) by {
                    lemma_stamp_noop_below(s0, sxn, syn, v, rad, n, px, py);
                }
                lemma_covered_range_chop(
                    s0,
                    sxn,
                    syn,
                    lim,
                    rad,
                    n_start,
                    syn - lim - 1,
                    syn + lim + 1,
                    px,
                    py,
                );
            }
        }
    }
}


impl Racetrack {
    /// The cell of the visible window at logical position `pos`: `Some(true)`
    /// for a carved track cell, `Some(false)` for a known empty cell, `None`
    /// outside the window.
    pub fn get(&self, pos: Vector) -> (r: Option<bool>)
        requires
            self.inv(),
        ensures
            r == self.spec_get(pos),
    {
        self.grid.v_get(pos)
    }

    pub fn view_dist(&self) -> (r: i32)
        requires
            self.inv(),
        ensures
            r as int == self.spec_view_dist(),
            0 <= r,
    {
        self.view_dist
    }
}

/// The window's lookup domain: `get` answers `Some` exactly inside the
/// window square and `None` outside.  The window's shape depends only on
/// the view distance, which construction fixes and `translate` preserves —
/// so scrolling never changes where lookups succeed.
pub proof fn lemma_window_domain(t: &Racetrack, pos: Vector)
    requires
        t.inv(),
    ensures
        t.spec_get(pos) is Some <==> t.in_window(pos),
{
    let v = t.spec_view_dist();
    lemma_center_offset(v);
    assert(t.grid_view().off().x == v && t.grid_view().off().y == v);
}

/// In a populated track every window cell holds exactly its canonical
/// content: the pure function `canon_cell` of the seed, the geometry
/// parameters and the cumulative shift.  Together with
/// `lemma_window_domain` this pins the whole observable window from outside
/// this module.
pub proof fn lemma_canonical_cells(t: &Racetrack, pos: Vector)
    requires
        t.inv(),
        t.canonical_state(),
        t.in_window(pos),
    ensures
        t.spec_get(pos) == Some(
            canon_cell(
                t.seed(),
                t.spec_view_dist(),
                t.spec_path_radius(),
                t.shift_x(),
                t.shift_y(),
                pos.x as int,
                pos.y as int,
            ),
        ),
{
    let v = t.spec_view_dist();
    lemma_center_offset(v);
    assert(t.grid_view().off().x == v && t.grid_view().off().y == v);
    assert(win_coord(v, pos.x as int, pos.y as int));
    assert(cell_idx(v, pos.x as int, pos.y as int) == (pos.x + v) + (pos.y + v) * (2 * v + 1));
}

/// Translate determinism: a track's window contents are a pure function of
/// the seed, the geometry parameters and the cumulative displacement.  Two
/// tracks that share those agree on every cell, no matter how differently
/// their displacements were split over `translate` calls — in particular,
/// translating a freshly built track by any sequence of deltas summing to
/// zero reproduces a grid pixel-identical to the grid immediately after
/// construction, whose shift is zero.
pub proof fn lemma_translate_deterministic(a: &Racetrack, b: &Racetrack)
    requires
        a.inv(),
        b.inv(),
        a.canonical_state(),
        b.canonical_state(),
        a.seed() == b.seed(),
        a.spec_view_dist() == b.spec_view_dist(),
        a.spec_path_radius() == b.spec_path_radius(),
        a.shift_x() == b.shift_x(),
        a.shift_y() == b.shift_y(),
    ensures
        forall|pos: Vector| a.spec_get(pos) == b.spec_get(pos),
{
    let v = a.spec_view_dist();
    lemma_center_offset(v);
    assert forall|pos: Vector| a.spec_get(pos) == b.spec_get(pos) by {
        let px = pos.x as int;
        let py = pos.y as int;
        assert(a.grid_view().off().x == v && a.grid_view().off().y == v);
        assert(b.grid_view().off().x == v && b.grid_view().off().y == v);
        if win_coord(v, px, py) {
            assert(cell_idx(v, px, py) == (px + v) + (py + v) * (2 * v + 1));
            assert(a.grid_view().cells()[cell_idx(v, px, py)] == canon_cell(
                a.seed(),
                v,
                a.spec_path_radius(),
                a.shift_x(),
                a.shift_y(),
                px,
                py,
            ));
            assert(b.grid_view().cells()[cell_idx(v, px, py)] == canon_cell(
                b.seed(),
                v,
                b.spec_path_radius(),
                b.shift_x(),
                b.shift_y(),
                px,
                py,
            ));
        }
    }
}


/// Relies on String::push: appends exactly the given character.
#[verifier::external_body]
fn push_char(s: &mut String, c: char)
    ensures
        final(s)@ == old(s)@.push(c),
{
    s.push(c);
}

/// Row-major text indices stay inside a block of `rows` rows of width `w`.
proof fn lemma_text_idx(w: int, rr: int, cc: int, rows: int)
    requires
        0 <= cc < w,
        0 <= rr < rows,
    ensures
        0 <= rr * w + cc < rows * w,
        rr * w + cc < (rr + 1) * w,
{
    assert(0 <= rr * w + cc && rr * w + cc < rows * w && rr * w + cc < (rr + 1) * w)
        by (nonlinear_arith)
        requires
            0 <= cc < w,
            0 <= rr < rows,
    ;
}

impl Racetrack {
    /// Renders the window as text: rows from the window's top edge down,
    /// cells left to right — the `track` character for a carved cell, the
    /// `wall` character for anything else — each row closed by a newline.
    pub fn stringify(&self, track: char, wall: char) -> (r: String)
        requires
            self.inv(),
        ensures
            r@.len() == (2 * self.spec_view_dist() + 1) * (2 * self.spec_view_dist() + 2),
            forall|rr: int, cc: int|
                0 <= rr <= 2 * self.spec_view_dist() && 0 <= cc <= 2 * self.spec_view_dist()
                    ==> r@[#[trigger] text_idx(self.spec_view_dist(), rr, cc)] == (if self.spec_get(
                    Vector {
                        x: (cc - self.spec_view_dist()) as i32,
                        y: (self.spec_view_dist() - rr) as i32,
                    },
                ) == Some(true) {
                    track
                } else {
                    wall
                }),
            forall|rr: int|
                0 <= rr <= 2 * self.spec_view_dist() ==> r@[#[trigger] text_idx(
                    self.spec_view_dist(),
                    rr,
                    2 * self.spec_view_dist() + 1,
                )] == '\n',
    {
        let ghost v = self.spec_view_dist();
        let w: i32 = 2 * self.view_dist + 1;
        let wp: i32 = w + 1;
        let mut r = String::new();
        let mut row: i32 = 0;
        while row < w
            invariant
                self.inv(),
                v == self.spec_view_dist(),
                0 <= v <= 0x2000,
                w as int == 2 * v + 1,
                wp as int == 2 * v + 2,
                0 <= row <= w,
                r@.len() == row * (wp as int),
                forall|rr: int, cc: int|
                    0 <= rr < row && 0 <= cc <= 2 * v ==> r@[#[trigger] text_idx(v, rr, cc)] == (
                    if self.spec_get(
                        Vector { x: (cc - v) as i32, y: (v - rr) as i32 },
                    ) == Some(true) {
                        track
                    } else {
                        wall
                    }),
                forall|rr: int| 0 <= rr < row ==> r@[#[trigger] text_idx(v, rr, 2 * v + 1)] == '\n',
            decreases w - row,
        {
            let mut col: i32 = 0;
            while col < w
                invariant
                    self.inv(),
                    v == self.spec_view_dist(),
                    0 <= v <= 0x2000,
                    w as int == 2 * v + 1,
                    wp as int == 2 * v + 2,
                    0 <= row < w,
                    0 <= col <= w,
                    r@.len() == row * (wp as int) + col,
                    forall|rr: int, cc: int|
                        0 <= rr < row && 0 <= cc <= 2 * v ==> r@[#[trigger] text_idx(v, rr, cc)]
                            == (if self.spec_get(
                            Vector { x: (cc - v) as i32, y: (v - rr) as i32 },
                        ) == Some(true) {
                            track
                        } else {
                            wall
                        }),
                    forall|rr: int|
                        0 <= rr < row ==> r@[#[trigger] text_idx(v, rr, 2 * v + 1)] == '\n',
                    forall|cc: int|
                        0 <= cc < col ==> r@[#[trigger] text_idx(v, row as int, cc)] == (
                        if self.spec_get(
                            Vector { x: (cc - v) as i32, y: (v - row) as i32 },
                        ) == Some(true) {
                            track
                        } else {
                            wall
                        }),
                decreases w - col,
            {
                let pos = Vector::new(col - self.view_dist, self.view_dist - row);
                let cell = self.get(pos);
                let c = match cell {
                    Some(true) => track,
                    _ => wall,
                };
                let ghost old_t = r@;
                push_char(&mut r, c);
                proof {
                    assert(text_idx(v, row as int, col as int) == row * (wp as int) + col);
                    assert(r@[text_idx(v, row as int, col as int)] == c);
                    assert forall|rr: int, cc: int|
                        0 <= rr < row && 0 <= cc <= 2 * v implies r@[#[trigger] text_idx(
                        v,
                        rr,
                        cc,
                    )] == old_t[text_idx(v, rr, cc)] by {
                        lemma_text_idx(wp as int, rr, cc, row as int);
                    }
                    assert forall|rr: int| 0 <= rr < row implies r@[#[trigger] text_idx(
                        v,
                        rr,
                        2 * v + 1,
                    )] == old_t[text_idx(v, rr, 2 * v + 1)] by {
                        lemma_text_idx(wp as int, rr, 2 * v + 1, row as int);
                    }
                    assert forall|cc: int| 0 <= cc < col + 1 implies r@[#[trigger] text_idx(
                        v,
                        row as int,
                        cc,
                    )] == (if self.spec_get(
                        Vector { x: (cc - v) as i32, y: (v - row) as i32 },
                    ) == Some(true) {
                        track
                    } else {
                        wall
                    }) by {
                        assert(text_idx(v, row as int, cc) == row * (wp as int) + cc);
                        if cc < col {
                            assert(r@[text_idx(v, row as int, cc)] == old_t[text_idx(
                                v,
                                row as int,
                                cc,
                            )]);
                        }
                    }
                }
                col = col + 1;
            }
            let ghost old_t = r@;
            push_char(&mut r, '\n');
            proof {
                assert((row as int + 1) * (wp as int) == row * (wp as int) + wp) by (nonlinear_arith);
                assert(text_idx(v, row as int, 2 * v + 1) == row * (wp as int) + (2 * v + 1));
                assert(r@[text_idx(v, row as int, 2 * v + 1)] == '\n');
                assert forall|rr: int, cc: int|
                    0 <= rr < row + 1 && 0 <= cc <= 2 * v implies r@[#[trigger] text_idx(
                    v,
                    rr,
                    cc,
                )] == (if self.spec_get(
                    Vector { x: (cc - v) as i32, y: (v - rr) as i32 },
                ) == Some(true) {
                    track
                } else {
                    wall
                }) by {
                    if rr < row {
                        lemma_text_idx(wp as int, rr, cc, row as int);
                        assert(r@[text_idx(v, rr, cc)] == old_t[text_idx(v, rr, cc)]);
                    } else {
                        assert(text_idx(v, rr, cc) == row * (wp as int) + cc);
                        assert(r@[text_idx(v, rr, cc)] == old_t[text_idx(v, rr, cc)]);
                    }
                }
                assert forall|rr: int| 0 <= rr < row + 1 implies r@[#[trigger] text_idx(
                    v,
                    rr,
                    2 * v + 1,
                )] == '\n' by {
                    if rr < row {
                        lemma_text_idx(wp as int, rr, 2 * v + 1, row as int);
                        assert(r@[text_idx(v, rr, 2 * v + 1)] == old_t[text_idx(v, rr, 2 * v + 1)]);
                    }
                }
            }
            row = row + 1;
        }
        proof {
            assert(r@.len() == (2 * v + 1) * (2 * v + 2)) by (nonlinear_arith)
                requires
                    r@.len() == (2 * v + 1) * (2 * v + 2),
            ;
        }
        r
    }
}

/// The index of column `cc` of row `rr` in the rendered text.
pub open spec fn text_idx(v: int, rr: int, cc: int) -> int {
    rr * (2 * v + 2) + cc
}

} // verus!
