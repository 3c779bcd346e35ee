//! One simulated tick of a racer: integrate the commanded acceleration,
//! sample the movement segment for an escape off the carved track, update
//! the score and stall bookkeeping, scroll the window, and check the origin
//! cell.  The controller's decision arrives as a plain acceleration vector,
//! so every rule of the tick is verified for every possible decision.
use vstd::prelude::*;

verus! {

use crate::vector::{Vector, abs_spec, seg_pt, seg_steps};
use crate::racetrack::Racetrack;

/// The per-racer simulation state.
#[derive(Clone, Copy, PartialEq, Eq, Structural, Debug)]
pub struct SimState {
    pub pos: Vector,
    pub vel: Vector,
    pub max_score: i32,
    pub since_improved: u32,
    pub time: usize,
}

/// How a tick ended.
#[derive(Clone, Copy, PartialEq, Eq, Structural, Debug)]
pub enum TickOutcome {
    /// The racer survives into the next tick.
    Continue,
    /// A sampled point of the movement segment was known-empty: the racer
    /// left the carved track.
    Escaped,
    /// The forward score has not improved for longer than the patience
    /// threshold.
    Stalled,
    /// After scrolling, the window's origin cell itself is known-empty.
    Walled,
}

/// The number of ticks without improvement after which a run ends.
pub const STALL_PATIENCE: u32 = 50;

/// The index of the first point of the segment from `a` to `b`, at or after
/// `k`, whose window cell is known-empty, if any.
pub open spec fn first_open_idx(track: Racetrack, a: Vector, b: Vector, k: int) -> Option<int>
    decreases seg_steps(a, b) + 1 - k,
{
    if k < 0 || k > seg_steps(a, b) {
        None
    } else if track.spec_get(seg_pt(a, b, k)) == Some(false) {
        Some(k)
    } else {
        first_open_idx(track, a, b, k + 1)
    }
}

proof fn lemma_first_open_from(track: Racetrack, a: Vector, b: Vector, k: int)
    requires
        0 <= k <= seg_steps(a, b),
        forall|l: int| 0 <= l < k ==> track.spec_get(#[trigger] seg_pt(a, b, l)) != Some(false),
    ensures
        first_open_idx(track, a, b, 0) == first_open_idx(track, a, b, k),
    decreases k,
{
    if k > 0 {
        lemma_first_open_from(track, a, b, k - 1);
        assert(track.spec_get(seg_pt(a, b, k - 1)) != Some(false));
    }
}

/// A state whose magnitudes leave room for one more tick of exact
/// arithmetic.
pub open spec fn state_bounded(s: SimState) -> bool {
    &&& abs_spec(s.pos.x as int) <= 0x3000_0000
    &&& abs_spec(s.pos.y as int) <= 0x3000_0000
    &&& abs_spec(s.vel.x as int) <= 0x10_0000
    &&& abs_spec(s.vel.y as int) <= 0x10_0000
}

/// A freshly started racer at the origin.
pub fn start_state() -> (r: SimState)
    ensures
        r == (SimState {
            pos: Vector { x: 0, y: 0 },
            vel: Vector { x: 0, y: 0 },
            max_score: 0,
            since_improved: 0,
            time: 0,
        }),
        state_bounded(r),
{
    SimState {
        pos: Vector::new(0, 0),
        vel: Vector::new(0, 0),
        max_score: 0,
        since_improved: 0,
        time: 0,
    }
}

/// Runs one tick against `track` with the commanded acceleration `accel`.
///
/// The new velocity is the old one plus `accel`; the movement segment from
/// the origin is sampled in travel order and the first known-empty cell ends
/// the run as `Escaped`, crediting movement up to that point.  Otherwise the
/// position advances by the velocity; a run that has not improved its best
/// forward score for more than `STALL_PATIENCE` ticks ends as `Stalled`
/// before the window moves.  Otherwise the window scrolls by the velocity,
/// the clock advances (saturating), and a known-empty origin cell ends the
/// run as `Walled`.
pub fn tick(state: &mut SimState, track: &mut Racetrack, accel: Vector) -> (r: TickOutcome)
    requires
        old(track).inv(),
        state_bounded(*old(state)),
        abs_spec(accel.x as int) <= 1,
        abs_spec(accel.y as int) <= 1,
        abs_spec(old(track).shift_y()) <= 0x0800_0000,
        0 <= old(state).max_score,
    ensures
        final(track).inv(),
        final(track).seed() == old(track).seed(),
        final(track).spec_view_dist() == old(track).spec_view_dist(),
        final(track).spec_path_radius() == old(track).spec_path_radius(),
        final(state).vel == (Vector {
            x: (old(state).vel.x + accel.x) as i32,
            y: (old(state).vel.y + accel.y) as i32,
        }),
        ({
            let nv = final(state).vel;
            let hit = first_open_idx(*old(track), Vector { x: 0, y: 0 }, nv, 0);
            let moved = Vector {
                x: (old(state).pos.x + nv.x) as i32,
                y: (old(state).pos.y + nv.y) as i32,
            };
            let improved = moved.y > old(state).max_score;
            match r {
                TickOutcome::Escaped => {
                    &&& match hit {
                        Some(k0) => final(state).pos == (Vector {
                            x: (old(state).pos.x + seg_pt(Vector { x: 0, y: 0 }, nv, k0).x) as i32,
                            y: (old(state).pos.y + seg_pt(Vector { x: 0, y: 0 }, nv, k0).y) as i32,
                        }),
                        None => false,
                    }
                    &&& final(state).max_score == old(state).max_score
                    &&& final(state).since_improved == old(state).since_improved
                    &&& final(state).time == old(state).time
                    &&& *final(track) == *old(track)
                },
                TickOutcome::Stalled => {
                    &&& hit is None
                    &&& !improved
                    &&& old(state).since_improved > STALL_PATIENCE
                    &&& final(state).pos == moved
                    &&& final(state).max_score == old(state).max_score
                    &&& final(state).since_improved == old(state).since_improved
                    &&& final(state).time == old(state).time
                    &&& *final(track) == *old(track)
                },
                TickOutcome::Continue | TickOutcome::Walled => {
                    &&& hit is None
                    &&& !(!improved && old(state).since_improved > STALL_PATIENCE)
                    &&& final(state).pos == moved
                    &&& final(state).max_score == if improved {
                        moved.y
                    } else {
                        old(state).max_score
                    }
                    &&& final(state).since_improved == if improved {
                        0u32
                    } else {
                        (old(state).since_improved + 1) as u32
                    }
                    &&& final(state).time == if old(state).time == usize::MAX {
                        usize::MAX
                    } else {
                        (old(state).time + 1) as usize
                    }
                    &&& final(track).canonical_state()
                    &&& final(track).shift_x() == old(track).shift_x() + nv.x
                    &&& final(track).shift_y() == old(track).shift_y() + nv.y
                    &&& (r == TickOutcome::Walled <==> final(track).spec_get(Vector { x: 0, y: 0 })
                        == Some(false))
                },
            }
        }),
        0 <= final(state).max_score,
        abs_spec(final(track).shift_y()) <= 0x0900_0000,
{
    let nv = state.vel.add(accel);
    state.vel = nv;
    proof {
        assert(state.vel.x as int == old(state).vel.x + accel.x);
        assert(state.vel.y as int == old(state).vel.y + accel.y);
        assert(state.vel == (Vector {
            x: (old(state).vel.x + accel.x) as i32,
            y: (old(state).vel.y + accel.y) as i32,
        }));
    }
    let origin = Vector::new(0, 0);
    let pts = origin.segment_pts(nv);
    let mut k: usize = 0;
    while k < pts.len()
        invariant
            track.inv(),
            *track == *old(track),
            state_bounded(*old(state)),
            0 <= old(state).max_score,
            abs_spec(accel.x as int) <= 1,
            abs_spec(accel.y as int) <= 1,
            abs_spec(old(track).shift_y()) <= 0x0800_0000,
            nv == (Vector {
                x: (old(state).vel.x + accel.x) as i32,
                y: (old(state).vel.y + accel.y) as i32,
            }),
            state.vel == nv,
            state.pos == old(state).pos,
            state.max_score == old(state).max_score,
            state.since_improved == old(state).since_improved,
            state.time == old(state).time,
            pts@.len() == seg_steps(origin, nv) + 1,
            forall|l: int| 0 <= l < pts@.len() ==> #[trigger] pts@[l] == seg_pt(origin, nv, l),
            0 <= k <= pts@.len(),
            forall|l: int|
                0 <= l < k ==> track.spec_get(#[trigger] seg_pt(origin, nv, l)) != Some(false),
            origin == (Vector { x: 0, y: 0 }),
            abs_spec(nv.x as int) <= 0x10_0001,
            abs_spec(nv.y as int) <= 0x10_0001,
        decreases pts@.len() - k,
    {
        let pt = pts[k];
        let cell = track.get(pt);
        let open_here = match cell {
            Some(false) => true,
            _ => false,
        };
        if open_here {
            proof {
                lemma_first_open_from(*track, origin, nv, k as int);
                crate::vector::lemma_seg_pt_bounds(origin, nv, k as int);
            }
            state.pos = state.pos.add(pt);
            return TickOutcome::Escaped;
        }
        k = k + 1;
    }
    proof {
        lemma_first_open_from(*track, origin, nv, pts@.len() as int - 1);
        assert(track.spec_get(seg_pt(origin, nv, seg_steps(origin, nv) as int)) != Some(false));
        assert(first_open_idx(*track, origin, nv, seg_steps(origin, nv) as int + 1) is None);
        assert(first_open_idx(*track, origin, nv, seg_steps(origin, nv) as int) is None);
    }
    state.pos = state.pos.add(nv);
    if state.pos.y > state.max_score {
        state.max_score = state.pos.y;
        state.since_improved = 0;
    } else if state.since_improved > STALL_PATIENCE {
        return TickOutcome::Stalled;
    } else {
        state.since_improved = state.since_improved + 1;
    }
    track.translate(nv);
    if state.time < usize::MAX {
        state.time = state.time + 1;
    }
    let origin_cell = track.get(Vector::new(0, 0));
    match origin_cell {
        Some(false) => TickOutcome::Walled,
        _ => TickOutcome::Continue,
    }
}

} // verus!
