//! The integer half of the neural controller: the radial sensor sweep over
//! the visible track window and the mapping from a winning output index to a
//! unit acceleration.  The floating-point weight arithmetic itself lives
//! outside the verified core and consumes these samples.
use vstd::prelude::*;

verus! {

use crate::vector::Vector;
use crate::racetrack::Racetrack;

/// `n` rounded up to the nearest even number (for non-negative `n`).
pub open spec fn round_up_2(n: int) -> int {
    if n % 2 == 0 {
        n
    } else {
        n + 1
    }
}

/// Rounds a view distance up to the nearest even number.
pub fn pos_round_up_2(num: i32) -> (r: i32)
    requires
        0 <= num < i32::MAX,
    ensures
        r as int == round_up_2(num as int),
{
    let parity: i32 = num & 1i32;
    proof {
        assert(parity == num % 2i32) by (bit_vector)
            requires
                parity == num & 1i32,
                0 <= num,
        ;
    }
    num + parity
}

/// The number of odd sampling offsets below an even view distance.
pub open spec fn half_count(vd: int) -> int {
    vd / 2
}

/// The number of `(x, y)` sampling pairs for an even view distance.
pub open spec fn pair_count(vd: int) -> int {
    half_count(vd) * half_count(vd)
}

/// The sampling position of sensor `j` for an even view distance `vd`:
/// sensors are laid out quadrant-major, each quadrant sweeping the odd
/// offsets `1, 3, 5, ...` below `vd` with `x` varying slowest.
pub open spec fn sensor_pos(vd: int, j: int) -> Vector {
    let q = pair_count(vd);
    let quad = j / q;
    let pair = j % q;
    let x = 1 + 2 * (pair / half_count(vd));
    let y = 1 + 2 * (pair % half_count(vd));
    if quad == 0 {
        Vector { x: x as i32, y: y as i32 }
    } else if quad == 1 {
        Vector { x: (-x) as i32, y: y as i32 }
    } else if quad == 2 {
        Vector { x: (-x) as i32, y: (-y) as i32 }
    } else {
        Vector { x: x as i32, y: (-y) as i32 }
    }
}

/// Samples the window for every sensor of a controller with even view
/// distance `vd`: entry `j` reports whether the sampled cell is known track.
/// Cells outside the window read as `false`, like known-empty cells.
pub fn sensor_inputs(vd: i32, track: &Racetrack) -> (r: Vec<bool>)
    requires
        track.inv(),
        0 <= vd <= 0x1000,
        vd % 2 == 0,
    ensures
        r@.len() == 4 * pair_count(vd as int),
        forall|j: int|
            0 <= j < r@.len() ==> r@[j] == (#[trigger] track.spec_get(sensor_pos(vd as int, j))
                == Some(true)),
{
    let half: i32 = vd / 2;
    proof {
        assert(0 <= (half as int) * (half as int) <= 0x40_0000) by (nonlinear_arith)
            requires
                0 <= half as int <= 0x800,
        ;
    }
    let q: i32 = half * half;
    let total: usize = (4 * q) as usize;
    let mut r: Vec<bool> = Vec::new();
    let mut j: usize = 0;
    while j < total
        invariant
            track.inv(),
            0 <= vd <= 0x1000,
            vd % 2 == 0,
            half as int == half_count(vd as int),
            q as int == pair_count(vd as int),
            0 <= q <= 0x400000,
            total == 4 * q,
            0 <= j <= total,
            r@.len() == j,
            forall|l: int|
                0 <= l < r@.len() ==> r@[l] == (#[trigger] track.spec_get(
                    sensor_pos(vd as int, l),
                ) == Some(true)),
        decreases total - j,
    {
        proof {
            assert(q > 0);
        }
        let quad: i32 = (j as i32) / q;
        let pair: i32 = (j as i32) % q;
        let x: i32 = 1 + 2 * (pair / half);
        let y: i32 = 1 + 2 * (pair % half);
        proof {
            assert(0 <= pair / half <= half) by (nonlinear_arith)
                requires
                    0 <= pair,
                    pair < half * half,
                    0 < half,
            ;
            assert(0 <= pair % half < half);
        }
        let pos = if quad == 0 {
            Vector::new(x, y)
        } else if quad == 1 {
            Vector::new(-x, y)
        } else if quad == 2 {
            Vector::new(-x, -y)
        } else {
            Vector::new(x, -y)
        };
        proof {
            assert(quad == (j as int) / (q as int));
            assert(pair == (j as int) % (q as int));
            assert(0 <= quad < 4) by (nonlinear_arith)
                requires
                    0 <= j as int,
                    (j as int) < 4 * (q as int),
                    0 < q as int,
                    quad == (j as int) / (q as int),
            ;
            assert(pos == sensor_pos(vd as int, j as int));
        }
        let cell = track.get(pos);
        let hit = match cell {
            Some(true) => true,
            _ => false,
        };
        r.push(hit);
        j = j + 1;
    }
    r
}

/// The unit acceleration commanded by winning output index `i`.
pub open spec fn spec_accel_from_index(i: int) -> Vector {
    if i == 0 {
        Vector { x: 1, y: 0 }
    } else if i == 1 {
        Vector { x: 0, y: 1 }
    } else if i == 2 {
        Vector { x: -1i32, y: 0 }
    } else {
        Vector { x: 0, y: -1i32 }
    }
}

/// Maps the index of the strongest output neuron to its unit acceleration:
/// right, up, left, down in that order.  Index 0 — the winner when all
/// outputs tie, since the first greatest value wins — commands `(1, 0)`.
pub fn accel_from_index(i: usize) -> (r: Vector)
    requires
        i < 4,
    ensures
        r == spec_accel_from_index(i as int),
        -1 <= r.x <= 1,
        -1 <= r.y <= 1,
{
    if i == 0 {
        Vector::new(1, 0)
    } else if i == 1 {
        Vector::new(0, 1)
    } else if i == 2 {
        Vector::new(-1, 0)
    } else {
        Vector::new(0, -1)
    }
}

} // verus!
