//! The pursuit agent: a mover with a patrol / chase / cooldown state
//! machine.  Each frame it senses the target with the vision check
//! (range, field of view, line of sight), steps its behaviour state,
//! and moves through the sliding collision resolver — chasing the
//! target while seen, searching the last known position from memory
//! after losing sight, then cooling down back into patrol.

use vstd::prelude::*;
use crate::fixed::norm_angle;
use crate::fixed::atan2_fp;
use crate::fixed::cos_fp;
use crate::fixed::sin_fp;
use crate::fixed::normalize_angle;
use crate::fixed::atan2_approx;
use crate::fixed::cos_approx;
use crate::fixed::sin_approx;
use crate::fixed::div_floor;
use crate::fixed::lemma_div_bounds;
use crate::grid::Grid;
use crate::motion::circle_free;
use crate::motion::slide_pos;
use crate::motion::slide_moved;
use crate::motion::try_move_with_slide;
use crate::ray::los_clear;
use crate::ray::line_of_sight_clear;

verus! {

/// The agent's collision radius, in milli-units (ten world units).
pub const ENEMY_RADIUS: i64 = 10_000;

/// How long the agent keeps chasing after losing sight, milli-seconds.
pub const MEMORY_DURATION: i64 = 5000;

/// How close (milli-units) the agent must get to the last known
/// position to decide the spot is empty and forget it.
pub const FORGET_RADIUS: i64 = 40_000;

/// Turn rate while chasing a visible target, milli-degrees per
/// milli-second (160 degrees per second).
pub const TURN_RATE_CHASE: i64 = 160;

/// Turn rate while steering toward a remembered position (149 degrees
/// per second).
pub const TURN_RATE_SEARCH: i64 = 149;

/// Patrol heading change applied when the turn timer elapses,
/// milli-degrees (34 degrees, signed by the cell parity).
pub const PATROL_TURN: i64 = 34_000;

/// The larger heading change applied when patrol movement is blocked
/// by a wall, milli-degrees.
pub const BLOCKED_TURN: i64 = 40_000;

/// The agent's behavioural state.
#[derive(Clone, Copy, Debug, PartialEq, Eq, Structural)]
pub enum AgentState {
    Patrol,
    Chase,
    Cooldown,
}

/// The pursuing agent.  Coordinates in milli-units, angles in
/// normalized milli-degrees, speeds in milli-units per second, timers
/// in milli-seconds.
pub struct Enemy {
    pub x: i64,
    pub y: i64,
    pub a: i64,
    pub active: bool,
    pub fov: i64,
    pub range: i64,
    pub speed_patrol: i64,
    pub speed_chase: i64,
    pub state: AgentState,
    pub cooldown: i64,
    pub cooldown_max: i64,
    pub patrol_turn_timer: i64,
    pub last_face: char,
    pub path_recalc_timer: i64,
    pub last_seen_x: i64,
    pub last_seen_y: i64,
    pub has_last_seen: bool,
    pub memory_time: i64,
}

/// Turn from angle `a` toward angle `target`, at most `cap`
/// milli-degrees in either direction; the result is normalized.
pub open spec fn turn_toward(a: int, target: int, cap: int) -> int {
    let diff = norm_angle(target - a);
    let step = if diff > cap {
        cap
    } else if diff < -cap {
        -cap
    } else {
        diff
    };
    norm_angle(a + step)
}

/// The movement delta of one frame at heading `a` (milli-degrees) and
/// the given speed (milli-units per second) over `dt` milli-seconds.
pub open spec fn move_delta(a: int, speed: int, dt: int) -> (int, int) {
    (cos_fp(a) * speed * dt / 1_000_000, sin_fp(a) * speed * dt / 1_000_000)
}

impl Enemy {
    /// Validity: every numeric field sits in the range the fixed-point
    /// arithmetic is proven for, and the heading is kept normalized.
    pub open spec fn wf(self) -> bool {
        &&& -1_000_000_000 <= self.x <= 1_000_000_000
        &&& -1_000_000_000 <= self.y <= 1_000_000_000
        &&& -180_000 < self.a <= 180_000
        &&& 0 <= self.fov <= 360_000
        &&& 0 <= self.range <= 1_000_000_000
        &&& 0 <= self.speed_patrol <= 800_000
        &&& 0 <= self.speed_chase <= 800_000
        &&& 0 <= self.cooldown_max <= 1_000_000
        &&& -100_000 <= self.cooldown <= 1_000_000
        &&& -100_000 <= self.memory_time <= 1_000_000
        &&& -100_000 <= self.patrol_turn_timer <= 1_000_000
        &&& -100_000 <= self.path_recalc_timer <= 1_000_000
        &&& -1_000_000_000 <= self.last_seen_x <= 1_000_000_000
        &&& -1_000_000_000 <= self.last_seen_y <= 1_000_000_000
    }

    /// A fresh, inactive agent at (x, y) facing `a`: 120-degree field
    /// of view, 1100-unit vision range, patrol speed 50 and chase
    /// speed 115 units per second, 2.5-second cooldown.
    pub fn new(x: i64, y: i64, a: i64) -> (e: Enemy)
        requires
            -1_000_000_000 <= x <= 1_000_000_000,
            -1_000_000_000 <= y <= 1_000_000_000,
            -180_000 < a <= 180_000,
        ensures
            e.wf(),
            e.x == x,
            e.y == y,
            e.a == a,
            !e.active,
            e.fov == 120_000,
            e.range == 1_100_000,
            e.speed_patrol == 50_000,
            e.speed_chase == 115_000,
            e.state == AgentState::Patrol,
            e.cooldown == 0,
            e.cooldown_max == 2500,
            e.patrol_turn_timer == 0,
            e.last_face == 'S',
            e.path_recalc_timer == 0,
            !e.has_last_seen,
            e.memory_time == 0,
    {
        Enemy {
            x,
            y,
            a,
            active: false,
            fov: 120_000,
            range: 1_100_000,
            speed_patrol: 50_000,
            speed_chase: 115_000,
            state: AgentState::Patrol,
            cooldown: 0,
            cooldown_max: 2500,
            patrol_turn_timer: 0,
            last_face: 'S',
            path_recalc_timer: 0,
            last_seen_x: 0,
            last_seen_y: 0,
            has_last_seen: false,
            memory_time: 0,
        }
    }

    /// Whether the agent is in its pursuit state right now.
    pub fn is_chasing(&self) -> (r: bool)
        ensures
            r == (self.state == AgentState::Chase),
    {
        self.state == AgentState::Chase
    }

    /// The vision predicate: the target is seen iff it is within the
    /// vision range, within half the field of view of the current
    /// heading (both bounds closed), and the line of sight is clear.
    pub open spec fn spec_sees(self, g: Grid, px: int, py: int) -> bool {
        let dx = px - self.x;
        let dy = py - self.y;
        let ad = vstd::math::abs(norm_angle(atan2_fp(dy, dx) - self.a));
        &&& dx * dx + dy * dy <= self.range * self.range
        &&& ad <= self.fov / 2
        &&& los_clear(g, self.x as int, self.y as int, px, py)
    }

    /// Whether the agent can see the target at (px, py).
    pub fn sees_player(&self, g: &Grid, px: i64, py: i64) -> (r: bool)
        requires
            g.wf(),
            self.wf(),
            -1_000_000_000 <= px <= 1_000_000_000,
            -1_000_000_000 <= py <= 1_000_000_000,
        ensures
            r == self.spec_sees(*g, px as int, py as int),
    {
        let dx = px - self.x;
        let dy = py - self.y;
        proof {
            assert(0 <= (dx as int) * (dx as int) <= 4_000_000_000_000_000_000 && 0 <= (
            dy as int) * (dy as int) <= 4_000_000_000_000_000_000) by (nonlinear_arith)
                requires
                    -2_000_000_000 <= (dx as int) <= 2_000_000_000,
                    -2_000_000_000 <= (dy as int) <= 2_000_000_000,
            ;
            assert(0 <= (self.range as int) * (self.range as int) <= 1_000_000_000_000_000_000)
                by (nonlinear_arith)
                requires
                    0 <= (self.range as int) <= 1_000_000_000,
            ;
        }
        let dist2: i64 = dx * dx + dy * dy;
        if dist2 > self.range * self.range {
            return false;
        }
        let target = atan2_approx(dy, dx);
        let diff = normalize_angle(target - self.a);
        let ad = if diff < 0 {
            -diff
        } else {
            diff
        };
        if ad > self.fov / 2 {
            return false;
        }
        line_of_sight_clear(g, self.x, self.y, px, py)
    }

    /// The presentational facing label before hysteresis: which of the
    /// four sprite facings a viewer at angle difference `deg`
    /// (milli-degrees) nominally sees.
    pub open spec fn face_candidate(deg: int) -> char {
        if deg > -60_000 && deg <= 60_000 {
            'S'
        } else if deg > 60_000 && deg <= 150_000 {
            'E'
        } else if deg <= -60_000 && deg > -150_000 {
            'W'
        } else {
            'N'
        }
    }

    /// The hysteresis band: a previously chosen label is kept while
    /// the angle stays within its nominal range widened by 12 degrees.
    pub open spec fn face_keep(face: char, d: int) -> bool {
        if face == 'S' {
            d > -72_000 && d <= 72_000
        } else if face == 'E' {
            d > 48_000 && d <= 162_000
        } else if face == 'W' {
            d >= -162_000 && d < -48_000
        } else if face == 'N' {
            d <= -138_000 || d > 138_000
        } else {
            false
        }
    }

    /// The label after hysteresis: keep the last label while its
    /// widened band holds, otherwise switch to the nominal candidate.
    pub open spec fn spec_face(last: char, deg: int) -> char {
        if Self::face_keep(last, deg) {
            last
        } else {
            Self::face_candidate(deg)
        }
    }

    /// The sprite facing (N, E, S or W) an external viewer at
    /// (cam_x, cam_y) should use, with hysteresis so the label does
    /// not flicker near a boundary.  Purely presentational: only the
    /// remembered label changes, never the behaviour state.
    pub fn facing_key_for_camera(&mut self, cam_x: i64, cam_y: i64) -> (r: char)
        requires
            old(self).wf(),
            -1_000_000_000 <= cam_x <= 1_000_000_000,
            -1_000_000_000 <= cam_y <= 1_000_000_000,
        ensures
            ({
                let deg = norm_angle(
                    atan2_fp(cam_y - old(self).y, cam_x - old(self).x) - old(self).a,
                );
                r == Enemy::spec_face(old(self).last_face, deg)
            }),
            final(self).last_face == r,
            *final(self) == (Enemy { last_face: r, ..*old(self) }),
    {
        let ang_to_cam = atan2_approx(cam_y - self.y, cam_x - self.x);
        let deg = normalize_angle(ang_to_cam - self.a);
        let candidate: char = if deg > -60_000 && deg <= 60_000 {
            'S'
        } else if deg > 60_000 && deg <= 150_000 {
            'E'
        } else if deg <= -60_000 && deg > -150_000 {
            'W'
        } else {
            'N'
        };
        let keep: bool = if self.last_face == 'S' {
            deg > -72_000 && deg <= 72_000
        } else if self.last_face == 'E' {
            deg > 48_000 && deg <= 162_000
        } else if self.last_face == 'W' {
            deg >= -162_000 && deg < -48_000
        } else if self.last_face == 'N' {
            deg <= -138_000 || deg > 138_000
        } else {
            false
        };
        if keep {
            self.last_face
        } else {
            self.last_face = candidate;
            candidate
        }
    }
}

/// The pure behaviour-state transition: what one sensing step does to
/// the state, the timers and the target memory, before any movement.
pub open spec fn spec_transition(e: Enemy, seen: bool, px: i64, py: i64, dt: i64) -> Enemy {
    if seen {
        Enemy {
            last_seen_x: px,
            last_seen_y: py,
            has_last_seen: true,
            state: AgentState::Chase,
            memory_time: MEMORY_DURATION,
            cooldown: e.cooldown_max,
            ..e
        }
    } else if e.state == AgentState::Chase {
        if e.memory_time > 0 {
            Enemy { memory_time: (e.memory_time - dt) as i64, ..e }
        } else {
            Enemy {
                state: AgentState::Cooldown,
                cooldown: e.cooldown_max,
                has_last_seen: false,
                ..e
            }
        }
    } else if e.state == AgentState::Cooldown {
        let nc: int = if e.cooldown - dt < -100_000 {
            -100_000
        } else {
            e.cooldown - dt
        };
        if nc <= 0 {
            Enemy { cooldown: nc as i64, state: AgentState::Patrol, ..e }
        } else {
            Enemy { cooldown: nc as i64, ..e }
        }
    } else {
        e
    }
}

/// Turn from `a` toward `target` by at most `cap` milli-degrees.
fn turn_step(a: i64, target: i64, cap: i64) -> (r: i64)
    requires
        -180_000 < a <= 180_000,
        -180_000 < target <= 180_000,
        0 <= cap <= 2_000_000,
    ensures
        r as int == turn_toward(a as int, target as int, cap as int),
        -180_000 < r <= 180_000,
{
    let diff = normalize_angle(target - a);
    let step = if diff > cap {
        cap
    } else if diff < -cap {
        -cap
    } else {
        diff
    };
    normalize_angle(a + step)
}

impl Enemy {
    /// Pursue the visible target: turn toward it at the chase turn
    /// rate, then advance at chase speed — with a fifteen-percent
    /// lunge within 120 units — sliding against walls.
    fn chase(&mut self, px: i64, py: i64, g: &Grid, dt: i64)
        requires
            g.wf(),
            old(self).wf(),
            -1_000_000_000 <= px <= 1_000_000_000,
            -1_000_000_000 <= py <= 1_000_000_000,
            0 <= dt <= 10_000,
        ensures
            final(self).wf(),
            *final(self) == (Enemy {
                x: final(self).x,
                y: final(self).y,
                a: final(self).a,
                ..*old(self)
            }),
            ({
                let a1 = turn_toward(
                    old(self).a as int,
                    atan2_fp(py - old(self).y, px - old(self).x),
                    TURN_RATE_CHASE * dt,
                );
                let dx0 = px - old(self).x;
                let dy0 = py - old(self).y;
                let speed: int = if dx0 * dx0 + dy0 * dy0 < 120_000 * 120_000 {
                    old(self).speed_chase * 115 / 100
                } else {
                    old(self).speed_chase as int
                };
                let d = move_delta(a1, speed, dt as int);
                &&& final(self).a == a1
                &&& (final(self).x as int, final(self).y as int) == slide_pos(
                    *g,
                    ENEMY_RADIUS as int,
                    old(self).x as int,
                    old(self).y as int,
                    d.0,
                    d.1,
                )
            }),
            circle_free(*g, old(self).x as int, old(self).y as int, ENEMY_RADIUS as int)
                ==> circle_free(*g, final(self).x as int, final(self).y as int, ENEMY_RADIUS as int),
    {
        let target = atan2_approx(py - self.y, px - self.x);
        let a1 = turn_step(self.a, target, TURN_RATE_CHASE * dt);
        self.a = a1;
        let dxn = px - self.x;
        let dyn0 = py - self.y;
        proof {
            assert(0 <= (dxn as int) * (dxn as int) <= 4_000_000_000_000_000_000 && 0 <= (
            dyn0 as int) * (dyn0 as int) <= 4_000_000_000_000_000_000) by (nonlinear_arith)
                requires
                    -2_000_000_000 <= (dxn as int) <= 2_000_000_000,
                    -2_000_000_000 <= (dyn0 as int) <= 2_000_000_000,
            ;
        }
        let dist2 = dxn * dxn + dyn0 * dyn0;
        let speed: i64 = if dist2 < 120_000 * 120_000 {
            self.speed_chase * 115 / 100
        } else {
            self.speed_chase
        };
        assert(0 <= speed <= 920_000);
        let c = cos_approx(a1);
        let si = sin_approx(a1);
        proof {
            assert(-920_000_000 <= (c as int) * (speed as int) <= 920_000_000 && -920_000_000
                <= (si as int) * (speed as int) <= 920_000_000) by (nonlinear_arith)
                requires
                    -1000 <= (c as int) <= 1000,
                    -1000 <= (si as int) <= 1000,
                    0 <= (speed as int) <= 920_000,
            ;
            assert(-(10_000_000 as int) * 1_000_000 <= (c as int) * (speed as int) * (dt as int)
                <= (10_000_000 as int) * 1_000_000 && -(10_000_000 as int) * 1_000_000 <= (
            si as int) * (speed as int) * (dt as int) <= (10_000_000 as int) * 1_000_000)
                by (nonlinear_arith)
                requires
                    -920_000_000 <= (c as int) * (speed as int) <= 920_000_000,
                    -920_000_000 <= (si as int) * (speed as int) <= 920_000_000,
                    0 <= (dt as int) <= 10_000,
            ;
            lemma_div_bounds((c as int) * (speed as int) * (dt as int), 1_000_000, 10_000_000);
            lemma_div_bounds((si as int) * (speed as int) * (dt as int), 1_000_000, 10_000_000);
        }
        let ddx = div_floor(c * speed * dt, 1_000_000);
        let ddy = div_floor(si * speed * dt, 1_000_000);
        let mut xx = self.x;
        let mut yy = self.y;
        try_move_with_slide(g, ENEMY_RADIUS, &mut xx, &mut yy, ddx, ddy);
        proof {
            if circle_free(*g, xx as int, yy as int, ENEMY_RADIUS as int) {
                crate::grid::lemma_point_in_bounds(*g, xx as int, yy as int);
            }
        }
        self.x = xx;
        self.y = yy;
    }

    /// Steer toward the last known target position from memory: once
    /// within the forget radius, drop the memory and stand; otherwise
    /// recalculate the path when the timer elapses, turn toward the
    /// next path cell, and advance at reduced chase speed.
    fn search_last_seen(&mut self, g: &Grid, dt: i64)
        requires
            g.wf(),
            old(self).wf(),
            0 <= dt <= 10_000,
        ensures
            final(self).wf(),
            *final(self) == (Enemy {
                x: final(self).x,
                y: final(self).y,
                a: final(self).a,
                path_recalc_timer: final(self).path_recalc_timer,
                has_last_seen: final(self).has_last_seen,
                ..*old(self)
            }),
            ({
                let dx = old(self).last_seen_x - old(self).x;
                let dy = old(self).last_seen_y - old(self).y;
                dx * dx + dy * dy < FORGET_RADIUS * FORGET_RADIUS
            }) ==> *final(self) == (Enemy { has_last_seen: false, ..*old(self) }),
            !({
                let dx = old(self).last_seen_x - old(self).x;
                let dy = old(self).last_seen_y - old(self).y;
                dx * dx + dy * dy < FORGET_RADIUS * FORGET_RADIUS
            }) ==> {
                let fired = old(self).path_recalc_timer - dt <= 0;
                let lx = old(self).last_seen_x;
                let ly = old(self).last_seen_y;
                let found = fired && crate::path::nav_endpoints_ok(
                    *g,
                    old(self).x as int,
                    old(self).y as int,
                    lx as int,
                    ly as int,
                ) && crate::path::reachable(
                    *g,
                    crate::path::cell_of_pos(*g, old(self).x as int, old(self).y as int),
                    crate::path::cell_of_pos(*g, lx as int, ly as int),
                );
                let d = move_delta(
                    final(self).a as int,
                    old(self).speed_chase * 82 / 100,
                    dt as int,
                );
                &&& final(self).has_last_seen == old(self).has_last_seen
                &&& final(self).path_recalc_timer == if fired {
                    250int
                } else {
                    old(self).path_recalc_timer - dt
                }
                &&& (found ==> exists|v0: int, v1: int|
                    #[trigger] crate::path::is_step_toward(
                        *g,
                        old(self).x as int,
                        old(self).y as int,
                        lx as int,
                        ly as int,
                        v0,
                        v1,
                    ) && final(self).a as int == turn_toward(
                        old(self).a as int,
                        atan2_fp(v1, v0),
                        TURN_RATE_SEARCH * dt,
                    ))
                &&& (!found ==> final(self).a == old(self).a)
                &&& (final(self).x as int, final(self).y as int) == slide_pos(
                    *g,
                    ENEMY_RADIUS as int,
                    old(self).x as int,
                    old(self).y as int,
                    d.0,
                    d.1,
                )
            },
            circle_free(*g, old(self).x as int, old(self).y as int, ENEMY_RADIUS as int)
                ==> circle_free(*g, final(self).x as int, final(self).y as int, ENEMY_RADIUS as int),
    {
        let dx = self.last_seen_x - self.x;
        let dy = self.last_seen_y - self.y;
        proof {
            assert(0 <= (dx as int) * (dx as int) <= 4_000_000_000_000_000_000 && 0 <= (
            dy as int) * (dy as int) <= 4_000_000_000_000_000_000) by (nonlinear_arith)
                requires
                    -2_000_000_000 <= (dx as int) <= 2_000_000_000,
                    -2_000_000_000 <= (dy as int) <= 2_000_000_000,
            ;
        }
        if dx * dx + dy * dy < FORGET_RADIUS * FORGET_RADIUS {
            self.has_last_seen = false;
            return ;
        }
        let fired = self.path_recalc_timer - dt <= 0;
        if fired {
            self.path_recalc_timer = 250;
            match crate::path::next_step_towards(
                g,
                self.x,
                self.y,
                self.last_seen_x,
                self.last_seen_y,
            ) {
                Some(v) => {
                    proof {
                        let sxi = old(self).x as int;
                        let syi = old(self).y as int;
                        let lxi = old(self).last_seen_x as int;
                        let lyi = old(self).last_seen_y as int;
                        let (ci, cj) = choose|ci: int, cj: int|
                            {
                                &&& #[trigger] g.traversable(ci, cj)
                                &&& crate::path::reachable(
                                    *g,
                                    (ci, cj),
                                    crate::path::cell_of_pos(*g, lxi, lyi),
                                )
                                &&& (crate::path::cell_of_pos(*g, sxi, syi)
                                    == crate::path::cell_of_pos(*g, lxi, lyi) ==> (ci, cj)
                                    == crate::path::cell_of_pos(*g, sxi, syi))
                                &&& (crate::path::cell_of_pos(*g, sxi, syi)
                                    != crate::path::cell_of_pos(*g, lxi, lyi)
                                    ==> crate::path::adjacent(
                                    crate::path::cell_of_pos(*g, sxi, syi),
                                    (ci, cj),
                                ))
                                &&& v.0 as int == g.center_x(ci) - sxi
                                &&& v.1 as int == g.center_y(cj) - syi
                            };
                        assert(0 <= g.center_x(ci) <= 1_000_000_000 && 0 <= g.center_y(cj)
                            <= 1_000_000_000) by (nonlinear_arith)
                            requires
                                0 <= ci < g.width as int <= 1000,
                                0 <= cj < g.height as int <= 1000,
                                1 <= g.block <= 1000,
                                g.center_x(ci) == ci * (g.block * 1000) + g.block * 500,
                                g.center_y(cj) == cj * (g.block * 1000) + g.block * 500,
                        ;
                    }
                    let target = atan2_approx(v.1, v.0);
                    let a1 = turn_step(self.a, target, TURN_RATE_SEARCH * dt);
                    self.a = a1;
                },
                None => {
                },
            }
        } else {
            self.path_recalc_timer = self.path_recalc_timer - dt;
        }
        let speed: i64 = self.speed_chase * 82 / 100;
        assert(0 <= speed <= 656_000);
        let c = cos_approx(self.a);
        let si = sin_approx(self.a);
        proof {
            assert(-656_000_000 <= (c as int) * (speed as int) <= 656_000_000 && -656_000_000
                <= (si as int) * (speed as int) <= 656_000_000) by (nonlinear_arith)
                requires
                    -1000 <= (c as int) <= 1000,
                    -1000 <= (si as int) <= 1000,
                    0 <= (speed as int) <= 656_000,
            ;
            assert(-(10_000_000 as int) * 1_000_000 <= (c as int) * (speed as int) * (dt as int)
                <= (10_000_000 as int) * 1_000_000 && -(10_000_000 as int) * 1_000_000 <= (
            si as int) * (speed as int) * (dt as int) <= (10_000_000 as int) * 1_000_000)
                by (nonlinear_arith)
                requires
                    -656_000_000 <= (c as int) * (speed as int) <= 656_000_000,
                    -656_000_000 <= (si as int) * (speed as int) <= 656_000_000,
                    0 <= (dt as int) <= 10_000,
            ;
            lemma_div_bounds((c as int) * (speed as int) * (dt as int), 1_000_000, 10_000_000);
            lemma_div_bounds((si as int) * (speed as int) * (dt as int), 1_000_000, 10_000_000);
        }
        let ddx = div_floor(c * speed * dt, 1_000_000);
        let ddy = div_floor(si * speed * dt, 1_000_000);
        let mut xx = self.x;
        let mut yy = self.y;
        try_move_with_slide(g, ENEMY_RADIUS, &mut xx, &mut yy, ddx, ddy);
        proof {
            if circle_free(*g, xx as int, yy as int, ENEMY_RADIUS as int) {
                crate::grid::lemma_point_in_bounds(*g, xx as int, yy as int);
            }
        }
        self.x = xx;
        self.y = yy;
    }

    /// Wander: on a timer, apply a deterministic heading change picked
    /// by the parity of the current cell, then walk forward (at
    /// reduced speed during cooldown); when blocked by a wall, turn
    /// away harder and shorten the next turn timer.
    fn patrol(&mut self, g: &Grid, dt: i64, slow: bool)
        requires
            g.wf(),
            old(self).wf(),
            0 <= dt <= 10_000,
        ensures
            final(self).wf(),
            *final(self) == (Enemy {
                x: final(self).x,
                y: final(self).y,
                a: final(self).a,
                patrol_turn_timer: final(self).patrol_turn_timer,
                ..*old(self)
            }),
            ({
                let span = g.block * 1000;
                let fired = old(self).patrol_turn_timer - dt <= 0;
                let par = (old(self).x as int / span + old(self).y as int / span) % 2;
                let a1 = if fired {
                    norm_angle(old(self).a + PATROL_TURN - 2 * PATROL_TURN * par)
                } else {
                    old(self).a as int
                };
                let t1: int = if fired {
                    1200
                } else {
                    old(self).patrol_turn_timer - dt
                };
                let speed: int = if slow {
                    old(self).speed_patrol * 60 / 100
                } else {
                    old(self).speed_patrol as int
                };
                let d = move_delta(a1, speed, dt as int);
                let moved = slide_moved(
                    *g,
                    ENEMY_RADIUS as int,
                    old(self).x as int,
                    old(self).y as int,
                    d.0,
                    d.1,
                );
                &&& (final(self).x as int, final(self).y as int) == slide_pos(
                    *g,
                    ENEMY_RADIUS as int,
                    old(self).x as int,
                    old(self).y as int,
                    d.0,
                    d.1,
                )
                &&& final(self).a as int == if moved {
                    a1
                } else {
                    norm_angle(a1 + BLOCKED_TURN)
                }
                &&& final(self).patrol_turn_timer as int == if moved {
                    t1
                } else {
                    if t1 < 200 {
                        200
                    } else {
                        t1
                    }
                }
            }),
            circle_free(*g, old(self).x as int, old(self).y as int, ENEMY_RADIUS as int)
                ==> circle_free(*g, final(self).x as int, final(self).y as int, ENEMY_RADIUS as int),
    {
        let span: i64 = g.block * 1000;
        let fired = self.patrol_turn_timer - dt <= 0;
        if fired {
            self.patrol_turn_timer = 1200;
            let cx = div_floor(self.x, span);
            let cy = div_floor(self.y, span);
            proof {
                assert(-((1_000_000 as int) * (span as int)) <= (self.x as int) <= (
                1_000_000 as int) * (span as int) && -((1_000_000 as int) * (span as int)) <= (
                self.y as int) <= (1_000_000 as int) * (span as int)) by (nonlinear_arith)
                    requires
                        1000 <= (span as int) <= 1_000_000,
                        -1_000_000_000 <= (self.x as int) <= 1_000_000_000,
                        -1_000_000_000 <= (self.y as int) <= 1_000_000_000,
                ;
                lemma_div_bounds(self.x as int, span as int, 1_000_000);
                lemma_div_bounds(self.y as int, span as int, 1_000_000);
            }
            let m0 = (cx + cy) % 2;
            let par: i64 = if m0 < 0 {
                m0 + 2
            } else {
                m0
            };
            proof {
                vstd::arithmetic::div_mod::lemma_fundamental_div_mod(
                    cx as int + cy as int,
                    2,
                );
                vstd::arithmetic::div_mod::lemma_mod_division_less_than_divisor(
                    cx as int + cy as int,
                    2,
                );
                vstd::arithmetic::div_mod::lemma_fundamental_div_mod(
                    -(cx as int + cy as int),
                    2,
                );
                vstd::arithmetic::div_mod::lemma_mod_division_less_than_divisor(
                    -(cx as int + cy as int),
                    2,
                );
                if m0 < 0 {
                    let v = cx as int + cy as int;
                    assert(m0 as int == -((-v) % 2));
                    assert((par as int) == v % 2) by (nonlinear_arith)
                        requires
                            v == 2 * (v / 2) + v % 2,
                            0 <= v % 2 < 2,
                            -v == 2 * ((-v) / 2) + (-v) % 2,
                            0 <= (-v) % 2 < 2,
                            par as int == -((-v) % 2) + 2,
                            (-v) % 2 != 0,
                    ;
                }
            }
            self.a = normalize_angle(self.a + PATROL_TURN - 2 * PATROL_TURN * par);
        } else {
            self.patrol_turn_timer = self.patrol_turn_timer - dt;
        }
        let speed: i64 = if slow {
            self.speed_patrol * 60 / 100
        } else {
            self.speed_patrol
        };
        assert(0 <= speed <= 800_000);
        let c = cos_approx(self.a);
        let si = sin_approx(self.a);
        proof {
            assert(-800_000_000 <= (c as int) * (speed as int) <= 800_000_000 && -800_000_000
                <= (si as int) * (speed as int) <= 800_000_000) by (nonlinear_arith)
                requires
                    -1000 <= (c as int) <= 1000,
                    -1000 <= (si as int) <= 1000,
                    0 <= (speed as int) <= 800_000,
            ;
            assert(-(10_000_000 as int) * 1_000_000 <= (c as int) * (speed as int) * (dt as int)
                <= (10_000_000 as int) * 1_000_000 && -(10_000_000 as int) * 1_000_000 <= (
            si as int) * (speed as int) * (dt as int) <= (10_000_000 as int) * 1_000_000)
                by (nonlinear_arith)
                requires
                    -800_000_000 <= (c as int) * (speed as int) <= 800_000_000,
                    -800_000_000 <= (si as int) * (speed as int) <= 800_000_000,
                    0 <= (dt as int) <= 10_000,
            ;
            lemma_div_bounds((c as int) * (speed as int) * (dt as int), 1_000_000, 10_000_000);
            lemma_div_bounds((si as int) * (speed as int) * (dt as int), 1_000_000, 10_000_000);
        }
        let ddx = div_floor(c * speed * dt, 1_000_000);
        let ddy = div_floor(si * speed * dt, 1_000_000);
        let mut xx = self.x;
        let mut yy = self.y;
        let moved = try_move_with_slide(g, ENEMY_RADIUS, &mut xx, &mut yy, ddx, ddy);
        proof {
            if circle_free(*g, xx as int, yy as int, ENEMY_RADIUS as int) {
                crate::grid::lemma_point_in_bounds(*g, xx as int, yy as int);
            }
        }
        self.x = xx;
        self.y = yy;
        if !moved {
            self.a = normalize_angle(self.a + BLOCKED_TURN);
            if self.patrol_turn_timer < 200 {
                self.patrol_turn_timer = 200;
            }
        }
    }
}

impl Enemy {
    /// Whether the search step of this frame reaches the last known
    /// position and drops it (searched the spot, found nothing).
    pub open spec fn forgets_last_seen(t: Enemy, seen: bool) -> bool {
        let dx = t.last_seen_x - t.x;
        let dy = t.last_seen_y - t.y;
        &&& t.state == AgentState::Chase
        &&& !seen
        &&& t.has_last_seen
        &&& dx * dx + dy * dy < FORGET_RADIUS * FORGET_RADIUS
    }

    /// One frame of agent behaviour: sense the target, step the
    /// patrol/chase/cooldown state machine exactly as
    /// `spec_transition` says, then move through the sliding
    /// collision resolver according to the resulting state.  An
    /// inactive agent does nothing.
    pub fn update(&mut self, g: &Grid, px: i64, py: i64, dt: i64)
        requires
            g.wf(),
            old(self).wf(),
            -1_000_000_000 <= px <= 1_000_000_000,
            -1_000_000_000 <= py <= 1_000_000_000,
            0 <= dt <= 10_000,
        ensures
            final(self).wf(),
            !old(self).active ==> *final(self) == *old(self),
            old(self).active ==> ({
                let seen = old(self).spec_sees(*g, px as int, py as int);
                let t = spec_transition(*old(self), seen, px, py, dt);
                &&& final(self).state == t.state
                &&& final(self).memory_time == t.memory_time
                &&& final(self).cooldown == t.cooldown
                &&& final(self).last_seen_x == t.last_seen_x
                &&& final(self).last_seen_y == t.last_seen_y
                &&& final(self).has_last_seen == (t.has_last_seen && !Enemy::forgets_last_seen(
                    t,
                    seen,
                ))
                &&& final(self).active == old(self).active
                &&& final(self).fov == old(self).fov
                &&& final(self).range == old(self).range
                &&& final(self).speed_patrol == old(self).speed_patrol
                &&& final(self).speed_chase == old(self).speed_chase
                &&& final(self).cooldown_max == old(self).cooldown_max
                &&& final(self).last_face == old(self).last_face
                &&& -180_000 < final(self).a <= 180_000
                &&& (circle_free(*g, old(self).x as int, old(self).y as int, ENEMY_RADIUS as int)
                    ==> circle_free(
                    *g,
                    final(self).x as int,
                    final(self).y as int,
                    ENEMY_RADIUS as int,
                ))
                &&& (circle_free(*g, final(self).x as int, final(self).y as int, ENEMY_RADIUS as int)
                    || (final(self).x == old(self).x && final(self).y == old(self).y))
            }),
    {
        if !self.active {
            return ;
        }
        let seen = self.sees_player(g, px, py);
        if seen {
            self.last_seen_x = px;
            self.last_seen_y = py;
            self.has_last_seen = true;
            self.state = AgentState::Chase;
            self.memory_time = MEMORY_DURATION;
            self.cooldown = self.cooldown_max;
        } else {
            match self.state {
                AgentState::Chase => {
                    if self.memory_time > 0 {
                        self.memory_time = self.memory_time - dt;
                    } else {
                        self.state = AgentState::Cooldown;
                        self.cooldown = self.cooldown_max;
                        self.has_last_seen = false;
                    }
                },
                AgentState::Cooldown => {
                    let nc = self.cooldown - dt;
                    self.cooldown = if nc < -100_000 {
                        -100_000
                    } else {
                        nc
                    };
                    if self.cooldown <= 0 {
                        self.state = AgentState::Patrol;
                    }
                },
                AgentState::Patrol => {},
            }
        }
        match self.state {
            AgentState::Chase => {
                if seen {
                    self.chase(px, py, g, dt);
                } else if self.has_last_seen {
                    self.search_last_seen(g, dt);
                }
            },
            AgentState::Cooldown => {
                self.patrol(g, dt, true);
            },
            AgentState::Patrol => {
                self.patrol(g, dt, false);
            },
        }
    }
}

/// Vision boundary: when range and line of sight allow it, the target
/// is seen exactly when the angle between the heading and the
/// direction to the target is at most half the field of view — a
/// target exactly on the boundary is seen.
pub proof fn lemma_vision_fov_boundary(e: Enemy, g: Grid, px: int, py: int)
    requires
        (px - e.x) * (px - e.x) + (py - e.y) * (py - e.y) <= e.range * e.range,
        los_clear(g, e.x as int, e.y as int, px, py),
    ensures
        e.spec_sees(g, px, py) <==> vstd::math::abs(
            norm_angle(atan2_fp(py - e.y, px - e.x) - e.a),
        ) <= e.fov / 2,
{
}

/// The behaviour state after `n` frames in which the target is never
/// seen, each frame `dt` milli-seconds long.
pub open spec fn transition_n(e: Enemy, px: i64, py: i64, dt: i64, n: nat) -> Enemy
    decreases n,
{
    if n == 0 {
        e
    } else {
        spec_transition(transition_n(e, px, py, dt, (n - 1) as nat), false, px, py, dt)
    }
}

/// While the memory has not run out, an unseen chasing agent stays in
/// Chase, its memory decreasing by `dt` every frame and nothing else
/// of its behaviour state changing.
pub proof fn lemma_chase_persists(e: Enemy, px: i64, py: i64, dt: i64, k: nat)
    requires
        e.state == AgentState::Chase,
        0 < dt <= 10_000,
        -100_000 <= e.memory_time <= 1_000_000,
        k >= 1 ==> (k - 1) * dt < e.memory_time,
    ensures
        transition_n(e, px, py, dt, k) == (Enemy {
            memory_time: (e.memory_time - k * dt) as i64,
            ..e
        }),
    decreases k,
{
    if k == 0 {
        assert(transition_n(e, px, py, dt, 0) == e);
        assert(e.memory_time - 0 * dt == e.memory_time);
        assert((Enemy { memory_time: e.memory_time, ..e }) == e);
    } else {
        assert((k - 1) >= 1 ==> ((k - 1) - 1) * dt < (k - 1) * dt) by (nonlinear_arith)
            requires
                dt > 0,
        ;
        lemma_chase_persists(e, px, py, dt, (k - 1) as nat);
        let prev = transition_n(e, px, py, dt, (k - 1) as nat);
        assert(prev.memory_time == e.memory_time - (k - 1) * dt);
        assert((k - 1) * dt >= 0) by (nonlinear_arith)
            requires
                k >= 1,
                dt > 0,
        ;
        assert(prev.memory_time > 0);
        assert(k * dt == (k - 1) * dt + dt) by (nonlinear_arith);
    }
}

/// State machine liveness, pursuit half: once vision is lost with `m`
/// milli-seconds of memory left, the agent remains in Chase for
/// exactly as many whole frames as the memory covers, and enters
/// Cooldown — primed with the full cooldown duration, its memory of
/// the target dropped — on the frame after the memory runs out.
pub proof fn lemma_chase_then_cooldown(e: Enemy, px: i64, py: i64, dt: i64, k: nat)
    requires
        e.state == AgentState::Chase,
        0 < dt <= 10_000,
        -100_000 <= e.memory_time <= 1_000_000,
        k >= 1 ==> (k - 1) * dt < e.memory_time,
        e.memory_time <= k * dt,
    ensures
        transition_n(e, px, py, dt, k).state == AgentState::Chase,
        transition_n(e, px, py, dt, k + 1).state == AgentState::Cooldown,
        transition_n(e, px, py, dt, k + 1).cooldown == e.cooldown_max,
        !transition_n(e, px, py, dt, k + 1).has_last_seen,
{
    lemma_chase_persists(e, px, py, dt, k);
    let at_k = transition_n(e, px, py, dt, k);
    if k >= 1 {
        assert(e.memory_time - k * dt > -dt) by (nonlinear_arith)
            requires
                (k - 1) * dt < e.memory_time,
                dt > 0,
        ;
    } else {
        assert(k * dt == 0) by (nonlinear_arith)
            requires
                k == 0,
        ;
    }
    assert(-100_000 <= e.memory_time - k * dt <= 1_000_000);
    assert(at_k.memory_time <= 0);
    assert(transition_n(e, px, py, dt, k + 1) == spec_transition(at_k, false, px, py, dt));
}

/// While the cooldown has not run out, an unseen cooling agent stays
/// in Cooldown, its countdown decreasing by `dt` every frame.
pub proof fn lemma_cooldown_persists(e: Enemy, px: i64, py: i64, dt: i64, k: nat)
    requires
        e.state == AgentState::Cooldown,
        0 < dt <= 10_000,
        -100_000 <= e.cooldown <= 1_000_000,
        k * dt < e.cooldown,
    ensures
        transition_n(e, px, py, dt, k) == (Enemy {
            cooldown: (e.cooldown - k * dt) as i64,
            ..e
        }),
    decreases k,
{
    if k == 0 {
        assert(k * dt == 0) by (nonlinear_arith)
            requires
                k == 0,
        ;
        assert((Enemy { cooldown: e.cooldown, ..e }) == e);
    } else {
        assert((k - 1) * dt < k * dt) by (nonlinear_arith)
            requires
                k >= 1,
                dt > 0,
        ;
        lemma_cooldown_persists(e, px, py, dt, (k - 1) as nat);
        let prev = transition_n(e, px, py, dt, (k - 1) as nat);
        assert(k * dt == (k - 1) * dt + dt) by (nonlinear_arith);
        assert((k - 1) * dt >= 0) by (nonlinear_arith)
            requires
                k >= 1,
                dt > 0,
        ;
        assert(-100_000 <= e.cooldown - (k - 1) * dt <= 1_000_000);
        assert(prev.cooldown == e.cooldown - (k - 1) * dt);
        assert(prev.cooldown - dt > 0);
        assert(k * dt >= 0) by (nonlinear_arith)
            requires
                dt > 0,
        ;
        assert(-100_000 <= e.cooldown - k * dt <= 1_000_000);
        assert(spec_transition(prev, false, px, py, dt) == (Enemy {
            cooldown: (e.cooldown - k * dt) as i64,
            ..e
        }));
    }
}

/// State machine liveness, cooldown half: the agent remains in
/// Cooldown for exactly as many whole frames as the countdown covers,
/// and returns to Patrol on the frame the countdown runs out.
pub proof fn lemma_cooldown_then_patrol(e: Enemy, px: i64, py: i64, dt: i64, k: nat)
    requires
        e.state == AgentState::Cooldown,
        0 < dt <= 10_000,
        -100_000 <= e.cooldown <= 1_000_000,
        k * dt < e.cooldown,
        e.cooldown <= (k + 1) * dt,
    ensures
        transition_n(e, px, py, dt, k).state == AgentState::Cooldown,
        transition_n(e, px, py, dt, k + 1).state == AgentState::Patrol,
{
    lemma_cooldown_persists(e, px, py, dt, k);
    let at_k = transition_n(e, px, py, dt, k);
    assert(k * dt >= 0) by (nonlinear_arith)
        requires
            dt > 0,
    ;
    assert(-100_000 <= e.cooldown - k * dt <= 1_000_000);
    assert((k + 1) * dt == k * dt + dt) by (nonlinear_arith);
    assert(at_k.cooldown - dt <= 0);
    assert(transition_n(e, px, py, dt, k + 1) == spec_transition(at_k, false, px, py, dt));
}

} // verus!
