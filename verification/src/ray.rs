//! The geometric ray query: march from an origin along a direction in
//! fixed steps until a wall cell (or the grid edge) is hit, up to a
//! maximum range.  Shared by rendering (one ray per screen column) and
//! by line-of-sight checks between movers.

use vstd::prelude::*;
use crate::fixed::cos_fp;
use crate::fixed::sin_fp;
use crate::fixed::cos_approx;
use crate::fixed::sin_approx;
use crate::fixed::sqrt_floor;
use crate::fixed::isqrt;
use crate::fixed::div_floor;
use crate::grid::Cell;
use crate::grid::Grid;

verus! {

/// The ray march advances this many milli-units per step (four world
/// units, small against any cell size).
pub const RAY_STEP: i64 = 4000;

/// Whether the ray sample at distance `d` (milli-units) from origin
/// (ox, oy) along the per-mille direction (dirx, diry) lies in a
/// traversable cell.  The sample is held in micro-units so that no
/// rounding happens before the cell lookup.
pub open spec fn ray_sample_free(g: Grid, ox: int, oy: int, dirx: int, diry: int, d: int) -> bool {
    let xs = ox * 1000 + dirx * d;
    let ys = oy * 1000 + diry * d;
    let mspan = g.block * 1_000_000;
    xs >= 0 && ys >= 0 && g.traversable(xs / mspan, ys / mspan)
}

/// The result of marching from distance `d` on: the first sampled
/// distance whose cell is not traversable, or nothing once the
/// accumulated distance reaches `max`.
pub open spec fn cast_from(
    g: Grid,
    ox: int,
    oy: int,
    dirx: int,
    diry: int,
    max: int,
    d: int,
) -> Option<int>
    decreases max + RAY_STEP - d,
{
    if d >= max {
        None
    } else if !ray_sample_free(g, ox, oy, dirx, diry, d) {
        Some(d)
    } else {
        cast_from(g, ox, oy, dirx, diry, max, d + RAY_STEP)
    }
}

/// The geometric ray query: the distance (milli-units) at which the
/// ray from (ox, oy) at `angle` first samples a non-traversable cell,
/// or nothing within `max`.  An origin outside the grid is an
/// immediate hit at distance zero.
pub open spec fn spec_cast(g: Grid, ox: int, oy: int, angle: int, max: int) -> Option<int> {
    cast_from(g, ox, oy, cos_fp(angle), sin_fp(angle), max, 0)
}

/// Determinism of the ray query: for one grid, origin, angle and
/// range, every evaluation is the same value — the query is a pure
/// function of its arguments.
pub proof fn lemma_ray_query_deterministic(
    g1: Grid,
    g2: Grid,
    ox: int,
    oy: int,
    angle: int,
    max: int,
)
    requires
        g1 == g2,
    ensures
        spec_cast(g1, ox, oy, angle, max) == spec_cast(g2, ox, oy, angle, max),
{
}

/// March a ray and return the distance, in milli-units, of the first
/// sample inside a wall or outside the grid; `None` past `max_range`.
pub fn cast_ray(g: &Grid, ox: i64, oy: i64, angle: i64, max_range: i64) -> (r: Option<i64>)
    requires
        g.wf(),
        -1_000_000_000 <= ox <= 1_000_000_000,
        -1_000_000_000 <= oy <= 1_000_000_000,
        0 <= max_range <= 1_000_000_000,
        -1_000_000_000 <= angle <= 1_000_000_000,
    ensures
        r is None <==> spec_cast(*g, ox as int, oy as int, angle as int, max_range as int)
            is None,
        r matches Some(d) ==> spec_cast(*g, ox as int, oy as int, angle as int, max_range as int)
            == Some(d as int) && 0 <= d < max_range,
{
    let dirx = cos_approx(angle);
    let diry = sin_approx(angle);
    let mut d: i64 = 0;
    while d < max_range
        invariant
            g.wf(),
            0 <= d <= max_range + RAY_STEP,
            -1_000_000_000 <= ox <= 1_000_000_000,
            -1_000_000_000 <= oy <= 1_000_000_000,
            0 <= max_range <= 1_000_000_000,
            -1000 <= dirx <= 1000,
            -1000 <= diry <= 1000,
            dirx as int == cos_fp(angle as int),
            diry as int == sin_fp(angle as int),
            cast_from(
                *g,
                ox as int,
                oy as int,
                dirx as int,
                diry as int,
                max_range as int,
                0,
            ) == cast_from(
                *g,
                ox as int,
                oy as int,
                dirx as int,
                diry as int,
                max_range as int,
                d as int,
            ),
        decreases max_range + RAY_STEP - d,
    {
        proof {
            assert(-1_000_000_000_000 <= (dirx as int) * (d as int) <= 1_000_000_000_000
                && -1_000_000_000_000 <= (diry as int) * (d as int) <= 1_000_000_000_000)
                by (nonlinear_arith)
                requires
                    -1000 <= (dirx as int) <= 1000,
                    -1000 <= (diry as int) <= 1000,
                    0 <= (d as int) <= 1_000_000_000,
            ;
        }
        let xs = ox * 1000 + dirx * d;
        let ys = oy * 1000 + diry * d;
        let free: bool = if xs < 0 || ys < 0 {
            false
        } else {
            let mspan: i64 = g.block * 1_000_000;
            let i = xs / mspan;
            let j = ys / mspan;
            proof {
                vstd::arithmetic::div_mod::lemma_div_pos_is_pos(xs as int, mspan as int);
                vstd::arithmetic::div_mod::lemma_div_pos_is_pos(ys as int, mspan as int);
            }
            if i >= g.width as i64 || j >= g.height as i64 {
                false
            } else {
                g.cell_at(i as usize, j as usize) != Cell::Wall
            }
        };
        proof {
            assert(free == ray_sample_free(
                *g,
                ox as int,
                oy as int,
                dirx as int,
                diry as int,
                d as int,
            ));
        }
        if !free {
            return Some(d);
        }
        d = d + RAY_STEP;
    }
    None
}

/// The length of the sampling step for line-of-sight checks: six
/// tenths of a cell, but no less than five world units (milli-units).
pub open spec fn los_step(g: Grid) -> int {
    if g.block * 600 >= 5000 {
        g.block * 600
    } else {
        5000
    }
}

/// How many segments the line-of-sight segment is sampled in: the
/// distance divided by the step, rounded up, and at least one.
pub open spec fn los_steps(g: Grid, x0: int, y0: int, x1: int, y1: int) -> int {
    let dx = x1 - x0;
    let dy = y1 - y0;
    let dist = sqrt_floor(dx * dx + dy * dy);
    let s = (dist + los_step(g) - 1) / los_step(g);
    if s < 1 {
        1
    } else {
        s
    }
}

/// The i-th line-of-sight sample lies in a traversable cell.
pub open spec fn los_sample_free(
    g: Grid,
    x0: int,
    y0: int,
    x1: int,
    y1: int,
    steps: int,
    i: int,
) -> bool {
    let sx = x0 + (x1 - x0) * i / steps;
    let sy = y0 + (y1 - y0) * i / steps;
    g.point_traversable(sx, sy)
}

/// Line of sight is clear between two points: every sample along the
/// straight segment, endpoints included, lies in a traversable cell.
/// A sample outside the grid blocks the line (the check fails closed).
pub open spec fn los_clear(g: Grid, x0: int, y0: int, x1: int, y1: int) -> bool {
    let steps = los_steps(g, x0, y0, x1, y1);
    forall|i: int| 0 <= i <= steps ==> #[trigger] los_sample_free(g, x0, y0, x1, y1, steps, i)
}

/// Whether the straight segment from (x0, y0) to (x1, y1) crosses only
/// traversable cells, by sampling at roughly cell-sized intervals.
pub fn line_of_sight_clear(g: &Grid, x0: i64, y0: i64, x1: i64, y1: i64) -> (r: bool)
    requires
        g.wf(),
        -1_000_000_000 <= x0 <= 1_000_000_000,
        -1_000_000_000 <= y0 <= 1_000_000_000,
        -1_000_000_000 <= x1 <= 1_000_000_000,
        -1_000_000_000 <= y1 <= 1_000_000_000,
    ensures
        r == los_clear(*g, x0 as int, y0 as int, x1 as int, y1 as int),
{
    let dx = x1 - x0;
    let dy = y1 - y0;
    proof {
        assert(0 <= (dx as int) * (dx as int) <= 4_000_000_000_000_000_000 && 0 <= (dy as int) * (
        dy as int) <= 4_000_000_000_000_000_000) by (nonlinear_arith)
            requires
                -2_000_000_000 <= (dx as int) <= 2_000_000_000,
                -2_000_000_000 <= (dy as int) <= 2_000_000_000,
        ;
    }
    let dist = isqrt(dx * dx + dy * dy);
    let step: i64 = if g.block * 600 >= 5000 {
        g.block * 600
    } else {
        5000
    };
    let sraw = (dist + step - 1) / step;
    let steps: i64 = if sraw < 1 {
        1
    } else {
        sraw
    };
    proof {
        assert(steps as int == los_steps(*g, x0 as int, y0 as int, x1 as int, y1 as int));
        assert(steps <= 1_000_000) by {
            vstd::arithmetic::div_mod::lemma_div_is_ordered(
                dist as int + step as int - 1,
                1_000_000 as int * step as int,
                step as int,
            );
            vstd::arithmetic::div_mod::lemma_div_multiples_vanish(1_000_000, step as int);
            assert(dist as int + step as int - 1 <= 1_000_000 * (step as int))
                by (nonlinear_arith)
                requires
                    0 <= dist <= 3_037_000_499,
                    5000 <= (step as int) <= 600_000,
            ;
        }
    }
    let mut i: i64 = 0;
    while i <= steps
        invariant
            g.wf(),
            0 <= i <= steps + 1,
            1 <= steps <= 1_000_000,
            steps as int == los_steps(*g, x0 as int, y0 as int, x1 as int, y1 as int),
            -1_000_000_000 <= x0 <= 1_000_000_000,
            -1_000_000_000 <= y0 <= 1_000_000_000,
            -2_000_000_000 <= dx <= 2_000_000_000,
            -2_000_000_000 <= dy <= 2_000_000_000,
            dx == x1 - x0,
            dy == y1 - y0,
            forall|t: int|
                0 <= t < i ==> #[trigger] los_sample_free(
                    *g,
                    x0 as int,
                    y0 as int,
                    x1 as int,
                    y1 as int,
                    steps as int,
                    t,
                ),
        decreases steps - i + 1,
    {
        proof {
            assert(-2_000_000_000_000_000 <= (dx as int) * (i as int) <= 2_000_000_000_000_000
                && -2_000_000_000_000_000 <= (dy as int) * (i as int) <= 2_000_000_000_000_000)
                by (nonlinear_arith)
                requires
                    -2_000_000_000 <= (dx as int) <= 2_000_000_000,
                    -2_000_000_000 <= (dy as int) <= 2_000_000_000,
                    0 <= (i as int) <= 1_000_000,
            ;
            crate::fixed::lemma_div_bounds((dx as int) * (i as int), steps as int, 2_000_000_000_000_000);
            crate::fixed::lemma_div_bounds((dy as int) * (i as int), steps as int, 2_000_000_000_000_000);
        }
        let sx = x0 + div_floor(dx * i, steps);
        let sy = y0 + div_floor(dy * i, steps);
        if !g.point_free(sx, sy) {
            proof {
                assert(!los_sample_free(
                    *g,
                    x0 as int,
                    y0 as int,
                    x1 as int,
                    y1 as int,
                    steps as int,
                    i as int,
                ));
            }
            return false;
        }
        i = i + 1;
    }
    true
}

/// The perspective ("fish-eye") correction a renderer applies to a
/// ray-query distance: the distance scaled by the absolute cosine of
/// the angle between the ray and the view direction.
pub fn perspective_correct(d: i64, ray_angle: i64, view_angle: i64) -> (r: i64)
    requires
        0 <= d <= 1_000_000_000,
        -1_000_000_000 <= ray_angle <= 1_000_000_000,
        -1_000_000_000 <= view_angle <= 1_000_000_000,
    ensures
        r as int == d * vstd::math::abs(cos_fp(ray_angle - view_angle)) / 1000,
        0 <= r <= d,
{
    let c = cos_approx(ray_angle - view_angle);
    let ca = if c < 0 {
        -c
    } else {
        c
    };
    proof {
        assert(0 <= (d as int) * (ca as int) <= 1_000_000_000_000) by (nonlinear_arith)
            requires
                0 <= (d as int) <= 1_000_000_000,
                0 <= (ca as int) <= 1000,
        ;
        assert((d as int) * (ca as int) <= (d as int) * 1000) by (nonlinear_arith)
            requires
                0 <= (d as int),
                0 <= (ca as int) <= 1000,
        ;
        vstd::arithmetic::div_mod::lemma_div_is_ordered(
            (d as int) * (ca as int),
            (d as int) * 1000,
            1000,
        );
        vstd::arithmetic::div_mod::lemma_div_pos_is_pos((d as int) * (ca as int), 1000);
        vstd::arithmetic::div_mod::lemma_div_multiples_vanish(d as int, 1000);
        assert((d as int) * 1000 == 1000 * (d as int)) by (nonlinear_arith);
    }
    (d * ca) / 1000
}

} // verus!
