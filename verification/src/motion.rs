//! Circle-vs-grid sliding collision: a mover's collision circle is
//! sampled at its center and eight perimeter points, and the two axes
//! of a movement delta are resolved independently, so a mover blocked
//! on one axis can still slide along a wall on the other.

use vstd::prelude::*;
use crate::fixed::cos_fp;
use crate::fixed::sin_fp;
use crate::fixed::norm_angle;
use crate::fixed::sqrt_floor;
use crate::fixed::cos_approx;
use crate::fixed::sin_approx;
use crate::fixed::normalize_angle;
use crate::fixed::isqrt;
use crate::fixed::div_floor;
use crate::fixed::lemma_div_bounds;
use crate::grid::Grid;
use crate::grid::lemma_point_in_bounds;

verus! {

/// The sampled collision circle around (x, y) with radius `r` lies in
/// traversable cells: the center plus eight points on the perimeter,
/// one per 45 degrees (707/1000 stands for the cosine of 45 degrees).
pub open spec fn circle_free(g: Grid, x: int, y: int, r: int) -> bool {
    let d = r * 707 / 1000;
    &&& g.point_traversable(x, y)
    &&& g.point_traversable(x + r, y)
    &&& g.point_traversable(x + d, y + d)
    &&& g.point_traversable(x, y + r)
    &&& g.point_traversable(x - d, y + d)
    &&& g.point_traversable(x - r, y)
    &&& g.point_traversable(x - d, y - d)
    &&& g.point_traversable(x, y - r)
    &&& g.point_traversable(x + d, y - d)
}

/// Where the x axis of a sliding move lands: the candidate if its
/// circle is free, else the old coordinate.
pub open spec fn slide_x(g: Grid, r: int, x: int, y: int, dx: int) -> int {
    if circle_free(g, x + dx, y, r) {
        x + dx
    } else {
        x
    }
}

/// Where the y axis of a sliding move lands, after the x axis.
pub open spec fn slide_y(g: Grid, r: int, x1: int, y: int, dy: int) -> int {
    if circle_free(g, x1, y + dy, r) {
        y + dy
    } else {
        y
    }
}

/// The position a sliding move ends at: x resolved first, then y
/// against the already-moved x.
pub open spec fn slide_pos(g: Grid, r: int, x: int, y: int, dx: int, dy: int) -> (int, int) {
    let x1 = slide_x(g, r, x, y, dx);
    (x1, slide_y(g, r, x1, y, dy))
}

/// Whether a sliding move reports movement: either axis test passed
/// (a zero delta into free space still counts, as the blocked-patrol
/// detection relies on).
pub open spec fn slide_moved(g: Grid, r: int, x: int, y: int, dx: int, dy: int) -> bool {
    let x1 = slide_x(g, r, x, y, dx);
    circle_free(g, x + dx, y, r) || circle_free(g, x1, y + dy, r)
}

/// Whether the sampled collision circle around (wx, wy) lies in
/// traversable cells.
pub fn is_free_radius(g: &Grid, wx: i64, wy: i64, radius: i64) -> (r: bool)
    requires
        g.wf(),
        0 <= radius <= 1_000_000,
        -2_000_000_000_000 <= wx <= 2_000_000_000_000,
        -2_000_000_000_000 <= wy <= 2_000_000_000_000,
    ensures
        r == circle_free(*g, wx as int, wy as int, radius as int),
{
    let d: i64 = radius * 707 / 1000;
    g.point_free(wx, wy) && g.point_free(wx + radius, wy) && g.point_free(wx + d, wy + d)
        && g.point_free(wx, wy + radius) && g.point_free(wx - d, wy + d) && g.point_free(
        wx - radius,
        wy,
    ) && g.point_free(wx - d, wy - d) && g.point_free(wx, wy - radius) && g.point_free(
        wx + d,
        wy - d,
    )
}

/// Resolve a movement delta against the grid, one axis at a time, so
/// the mover slides along walls.  Reports whether either axis test
/// accepted its candidate position.
pub fn try_move_with_slide(g: &Grid, radius: i64, x: &mut i64, y: &mut i64, dx: i64, dy: i64) -> (moved:
    bool)
    requires
        g.wf(),
        0 <= radius <= 1_000_000,
        -1_000_000_000_000 <= *old(x) <= 1_000_000_000_000,
        -1_000_000_000_000 <= *old(y) <= 1_000_000_000_000,
        -1_000_000_000_000 <= dx <= 1_000_000_000_000,
        -1_000_000_000_000 <= dy <= 1_000_000_000_000,
    ensures
        *final(x) == slide_pos(*g, radius as int, *old(x) as int, *old(y) as int, dx as int, dy as int).0,
        *final(y) == slide_pos(*g, radius as int, *old(x) as int, *old(y) as int, dx as int, dy as int).1,
        moved == slide_moved(*g, radius as int, *old(x) as int, *old(y) as int, dx as int, dy as int),
        circle_free(*g, *old(x) as int, *old(y) as int, radius as int) ==> circle_free(
            *g,
            *final(x) as int,
            *final(y) as int,
            radius as int,
        ),
        circle_free(*g, *final(x) as int, *final(y) as int, radius as int) || (*final(x) == *old(x)
            && *final(y) == *old(y)),
{
    let mut moved = false;
    let nx = *x + dx;
    if is_free_radius(g, nx, *y, radius) {
        *x = nx;
        moved = true;
    }
    let ny = *y + dy;
    if is_free_radius(g, *x, ny, radius) {
        *y = ny;
        moved = true;
    }
    moved
}

/// The position reached from (x, y) after a whole sequence of sliding
/// moves, applied in order.
pub open spec fn slide_path(g: Grid, r: int, x: int, y: int, deltas: Seq<(int, int)>) -> (int, int)
    decreases deltas.len(),
{
    if deltas.len() == 0 {
        (x, y)
    } else {
        let p0 = slide_path(g, r, x, y, deltas.drop_last());
        slide_pos(g, r, p0.0, p0.1, deltas.last().0, deltas.last().1)
    }
}

/// One sliding move keeps the collision circle out of walls.
pub proof fn lemma_slide_preserves_free(g: Grid, r: int, x: int, y: int, dx: int, dy: int)
    requires
        circle_free(g, x, y, r),
    ensures
        circle_free(g, slide_pos(g, r, x, y, dx, dy).0, slide_pos(g, r, x, y, dx, dy).1, r),
{
}

/// Wall containment: starting from a position whose collision circle
/// is free of walls, no sequence of sliding moves — whatever its
/// deltas — ends with the circle overlapping a wall.
pub proof fn lemma_wall_containment(g: Grid, r: int, x: int, y: int, deltas: Seq<(int, int)>)
    requires
        circle_free(g, x, y, r),
    ensures
        circle_free(
            g,
            slide_path(g, r, x, y, deltas).0,
            slide_path(g, r, x, y, deltas).1,
            r,
        ),
    decreases deltas.len(),
{
    if deltas.len() > 0 {
        lemma_wall_containment(g, r, x, y, deltas.drop_last());
        let p0 = slide_path(g, r, x, y, deltas.drop_last());
        lemma_slide_preserves_free(g, r, p0.0, p0.1, deltas.last().0, deltas.last().1);
    }
}

/// The player: a mover with a walking and a sprinting speed, driven by
/// per-frame input.  Coordinates are milli-units, the facing angle is
/// normalized milli-degrees, `mouse_sens` is milli-degrees of turn per
/// pixel of mouse movement.
pub struct Player {
    pub x: i64,
    pub y: i64,
    pub a: i64,
    pub fov: i64,
    pub speed_walk: i64,
    pub speed_sprint: i64,
    pub mouse_sens: i64,
    pub sprinting: bool,
    pub radius: i64,
}

impl Player {
    /// Validity: speeds, radius and position sit in the ranges the
    /// fixed-point arithmetic is proven for, and the angle is kept
    /// normalized.
    pub open spec fn wf(self) -> bool {
        &&& 0 <= self.speed_walk <= 1_000_000
        &&& 0 <= self.speed_sprint <= 1_000_000
        &&& 0 <= self.radius <= 100_000
        &&& -1_000_000_000 <= self.x <= 1_000_000_000
        &&& -1_000_000_000 <= self.y <= 1_000_000_000
        &&& -180_000 < self.a <= 180_000
    }

    /// A player at (x, y) facing `angle`, with the standard speeds, a
    /// 90-degree field of view and a point collision circle.
    pub fn new(x: i64, y: i64, angle: i64) -> (p: Player)
        requires
            -1_000_000_000 <= x <= 1_000_000_000,
            -1_000_000_000 <= y <= 1_000_000_000,
            -180_000 < angle <= 180_000,
        ensures
            p.wf(),
            p.x == x,
            p.y == y,
            p.a == angle,
            p.fov == 90_000,
            p.speed_walk == 200_000,
            p.speed_sprint == 340_000,
            p.mouse_sens == 143,
            !p.sprinting,
            p.radius == 0,
    {
        Player {
            x,
            y,
            a: angle,
            fov: 90_000,
            speed_walk: 200_000,
            speed_sprint: 340_000,
            mouse_sens: 143,
            sprinting: false,
            radius: 0,
        }
    }
}

/// The movement vector for a facing angle and the forward/strafe input
/// (each -1, 0 or 1), before normalization; per-mille scale.
pub open spec fn move_vec(a: int, fwd: int, strafe: int) -> (int, int) {
    (fwd * cos_fp(a) - strafe * sin_fp(a), fwd * sin_fp(a) + strafe * cos_fp(a))
}

/// The movement vector scaled to (at most) unit length, per-mille; the
/// zero vector stays zero.
pub open spec fn unit_dir(a: int, fwd: int, strafe: int) -> (int, int) {
    let v = move_vec(a, fwd, strafe);
    let len = sqrt_floor(v.0 * v.0 + v.1 * v.1);
    if len > 0 {
        (v.0 * 1000 / len, v.1 * 1000 / len)
    } else {
        (0, 0)
    }
}

/// What one frame of player movement does: turn by the mouse delta,
/// move along the normalized input direction at walking or sprinting
/// speed for `dt`, sliding against walls axis by axis; reports whether
/// a candidate position touched the exit cell.
pub open spec fn player_step_spec(
    g: Grid,
    p: Player,
    fwd: int,
    strafe: int,
    turn: int,
    sprint: bool,
    dt: int,
) -> (Player, bool) {
    let a1 = norm_angle(p.a + turn);
    let v = move_vec(a1, fwd, strafe);
    let len = sqrt_floor(v.0 * v.0 + v.1 * v.1);
    let u = unit_dir(a1, fwd, strafe);
    let spr = sprint && len > 0;
    let speed = if spr {
        p.speed_sprint as int
    } else {
        p.speed_walk as int
    };
    let ddx = u.0 * speed * dt / 1_000_000;
    let ddy = u.1 * speed * dt / 1_000_000;
    let x1 = slide_x(g, p.radius as int, p.x as int, p.y as int, ddx);
    let y1 = slide_y(g, p.radius as int, x1, p.y as int, ddy);
    let touched = g.point_exit(p.x + ddx, p.y as int) || g.point_exit(x1, p.y + ddy);
    (
        (Player {
            x: x1 as i64,
            y: y1 as i64,
            a: a1 as i64,
            sprinting: spr,
            ..p
        }),
        touched,
    )
}

/// One frame of player movement, from already-read input: `fwd` and
/// `strafe` are -1, 0 or 1, `turn` is the angle delta in
/// milli-degrees, `dt` the frame time in milli-seconds.  Returns
/// whether the player touched the exit cell this frame.
pub fn player_step(
    g: &Grid,
    p: &mut Player,
    fwd: i64,
    strafe: i64,
    turn: i64,
    sprint: bool,
    dt: i64,
) -> (touched_exit: bool)
    requires
        g.wf(),
        old(p).wf(),
        -1 <= fwd <= 1,
        -1 <= strafe <= 1,
        -400_000 <= turn <= 400_000,
        0 <= dt <= 10_000,
    ensures
        (*final(p), touched_exit) == player_step_spec(
            *g,
            *old(p),
            fwd as int,
            strafe as int,
            turn as int,
            sprint,
            dt as int,
        ),
        final(p).wf(),
        circle_free(*g, old(p).x as int, old(p).y as int, old(p).radius as int) ==> circle_free(
            *g,
            final(p).x as int,
            final(p).y as int,
            final(p).radius as int,
        ),
{
    let a1 = normalize_angle(p.a + turn);
    p.a = a1;
    let fx = cos_approx(a1);
    let fy = sin_approx(a1);
    proof {
        assert(-1000 <= (fwd as int) * (fx as int) <= 1000 && -1000 <= (strafe as int) * (
        fy as int) <= 1000 && -1000 <= (fwd as int) * (fy as int) <= 1000 && -1000 <= (
        strafe as int) * (fx as int) <= 1000) by (nonlinear_arith)
            requires
                -1 <= (fwd as int) <= 1,
                -1 <= (strafe as int) <= 1,
                -1000 <= (fx as int) <= 1000,
                -1000 <= (fy as int) <= 1000,
        ;
    }
    let vx = fwd * fx - strafe * fy;
    let vy = fwd * fy + strafe * fx;
    proof {
        assert(0 <= (vx as int) * (vx as int) <= 16_000_000 && 0 <= (vy as int) * (vy as int)
            <= 16_000_000) by (nonlinear_arith)
            requires
                -4000 <= (vx as int) <= 4000,
                -4000 <= (vy as int) <= 4000,
        ;
    }
    let sq: i64 = vx * vx + vy * vy;
    let len = isqrt(sq);
    proof {
        assert((len as int) * (len as int) <= 32_000_000 && 5657 * 5657 > 32_000_000 ==> (
        len as int) <= 5656) by (nonlinear_arith);
        assert(5657 * 5657 > 32_000_000) by (nonlinear_arith);
        if len > 0 {
            // the components are no longer than the vector
            assert((vx as int) * (vx as int) <= sq as int && (vy as int) * (vy as int)
                <= sq as int) by (nonlinear_arith)
                requires
                    sq as int == (vx as int) * (vx as int) + (vy as int) * (vy as int),
            ;
            assert(-(len as int) <= (vx as int) <= (len as int) && -(len as int) <= (vy as int)
                <= (len as int)) by (nonlinear_arith)
                requires
                    (vx as int) * (vx as int) <= sq as int,
                    (vy as int) * (vy as int) <= sq as int,
                    (sq as int) < ((len as int) + 1) * ((len as int) + 1),
                    0 <= len,
            ;
            assert(-((1000 as int) * (len as int)) <= (vx as int) * 1000 <= (1000 as int) * (
            len as int) && -((1000 as int) * (len as int)) <= (vy as int) * 1000 <= (
            1000 as int) * (len as int)) by (nonlinear_arith)
                requires
                    -(len as int) <= (vx as int) <= (len as int),
                    -(len as int) <= (vy as int) <= (len as int),
            ;
            lemma_div_bounds((vx as int) * 1000, len as int, 1000);
            lemma_div_bounds((vy as int) * 1000, len as int, 1000);
        }
    }
    let (ux, uy): (i64, i64) = if len > 0 {
        (div_floor(vx * 1000, len), div_floor(vy * 1000, len))
    } else {
        (0, 0)
    };
    let spr = sprint && len > 0;
    p.sprinting = spr;
    let speed = if spr {
        p.speed_sprint
    } else {
        p.speed_walk
    };
    proof {
        assert(-1_000_000_000 <= (ux as int) * (speed as int) <= 1_000_000_000
            && -1_000_000_000 <= (uy as int) * (speed as int) <= 1_000_000_000)
            by (nonlinear_arith)
            requires
                -1000 <= (ux as int) <= 1000,
                -1000 <= (uy as int) <= 1000,
                0 <= (speed as int) <= 1_000_000,
        ;
        assert(-10_000_000_000_000 <= (ux as int) * (speed as int) * (dt as int)
            <= 10_000_000_000_000 && -10_000_000_000_000 <= (uy as int) * (speed as int) * (
        dt as int) <= 10_000_000_000_000) by (nonlinear_arith)
            requires
                -1_000_000_000 <= (ux as int) * (speed as int) <= 1_000_000_000,
                -1_000_000_000 <= (uy as int) * (speed as int) <= 1_000_000_000,
                0 <= (dt as int) <= 10_000,
        ;
        assert(-((10_000_000 as int) * 1_000_000) <= (ux as int) * (speed as int) * (dt as int)
            <= (10_000_000 as int) * 1_000_000) by (nonlinear_arith)
            requires
                -10_000_000_000_000 <= (ux as int) * (speed as int) * (dt as int)
                    <= 10_000_000_000_000,
        ;
        assert(-((10_000_000 as int) * 1_000_000) <= (uy as int) * (speed as int) * (dt as int)
            <= (10_000_000 as int) * 1_000_000) by (nonlinear_arith)
            requires
                -10_000_000_000_000 <= (uy as int) * (speed as int) * (dt as int)
                    <= 10_000_000_000_000,
        ;
        lemma_div_bounds((ux as int) * (speed as int) * (dt as int), 1_000_000, 10_000_000);
        lemma_div_bounds((uy as int) * (speed as int) * (dt as int), 1_000_000, 10_000_000);
    }
    let ddx = div_floor(ux * speed * dt, 1_000_000);
    let ddy = div_floor(uy * speed * dt, 1_000_000);
    let mut touched = false;
    if g.point_is_exit(p.x + ddx, p.y) {
        touched = true;
    }
    let oldy = p.y;
    let mut xx = p.x;
    let mut yy = p.y;
    try_move_with_slide(g, p.radius, &mut xx, &mut yy, ddx, ddy);
    if g.point_is_exit(xx, oldy + ddy) {
        touched = true;
    }
    proof {
        if circle_free(*g, xx as int, yy as int, old(p).radius as int) {
            lemma_point_in_bounds(*g, xx as int, yy as int);
        }
    }
    p.x = xx;
    p.y = yy;
    touched
}

} // verus!
