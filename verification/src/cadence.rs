//! Footstep cadence: a small session object that turns per-frame
//! movement into discrete footstep events by accumulating distance
//! walked, with a shorter stride while sprinting.  All state lives in
//! explicit fields handed to each update — nothing process-wide.

use vstd::prelude::*;
use crate::fixed::sqrt_floor;
use crate::fixed::isqrt;

verus! {

/// Stride length between footsteps, milli-units: shorter sprinting.
pub open spec fn stride(sprinting: bool) -> int {
    if sprinting {
        22_000
    } else {
        34_000
    }
}

/// What the audio layer should do this frame.
#[derive(Clone, Copy, Debug, PartialEq, Eq, Structural)]
pub enum StepSignal {
    /// Movement just started: play a step at once.
    First,
    /// A full stride was covered: play a step.
    Step,
    /// Moving, but between steps.
    Silent,
    /// Not moving: cut any footstep audio.
    Stop,
}

/// The footstep cadence tracker for one mover.
pub struct StepCadence {
    pub was_moving: bool,
    pub last_x: i64,
    pub last_y: i64,
    pub accum: i64,
}

impl StepCadence {
    pub open spec fn wf(self) -> bool {
        &&& -1_000_000_000 <= self.last_x <= 1_000_000_000
        &&& -1_000_000_000 <= self.last_y <= 1_000_000_000
        &&& 0 <= self.accum <= 4_000_000_000
    }

    /// A quiet tracker anchored at (x, y).
    pub fn new(x: i64, y: i64) -> (c: StepCadence)
        requires
            -1_000_000_000 <= x <= 1_000_000_000,
            -1_000_000_000 <= y <= 1_000_000_000,
        ensures
            c.wf(),
            !c.was_moving,
            c.last_x == x,
            c.last_y == y,
            c.accum == 0,
    {
        StepCadence { was_moving: false, last_x: x, last_y: y, accum: 0 }
    }

    /// One frame: with no movement input, reset and ask for silence;
    /// on the first moving frame, ask for an immediate step; while
    /// moving, accumulate the distance walked and ask for a step each
    /// time a full stride is covered.
    pub fn update(&mut self, px: i64, py: i64, moving: bool, sprinting: bool) -> (sig: StepSignal)
        requires
            old(self).wf(),
            -1_000_000_000 <= px <= 1_000_000_000,
            -1_000_000_000 <= py <= 1_000_000_000,
        ensures
            final(self).wf(),
            final(self).last_x == px,
            final(self).last_y == py,
            !moving ==> sig == StepSignal::Stop && !final(self).was_moving && final(self).accum
                == 0,
            moving && !old(self).was_moving ==> sig == StepSignal::First
                && final(self).was_moving && final(self).accum == 0,
            moving && old(self).was_moving ==> ({
                let dx = px - old(self).last_x;
                let dy = py - old(self).last_y;
                let raw = old(self).accum + sqrt_floor(dx * dx + dy * dy);
                let acc1 = if raw > 4_000_000_000 {
                    4_000_000_000int
                } else {
                    raw
                };
                &&& final(self).was_moving
                &&& (acc1 >= stride(sprinting) ==> sig == StepSignal::Step && final(self).accum
                    == acc1 - stride(sprinting))
                &&& (acc1 < stride(sprinting) ==> sig == StepSignal::Silent && final(self).accum
                    == acc1)
            }),
    {
        if !moving {
            self.was_moving = false;
            self.accum = 0;
            self.last_x = px;
            self.last_y = py;
            return StepSignal::Stop;
        }
        let dx = px - self.last_x;
        let dy = py - self.last_y;
        proof {
            assert(0 <= (dx as int) * (dx as int) <= 4_000_000_000_000_000_000 && 0 <= (
            dy as int) * (dy as int) <= 4_000_000_000_000_000_000) by (nonlinear_arith)
                requires
                    -2_000_000_000 <= (dx as int) <= 2_000_000_000,
                    -2_000_000_000 <= (dy as int) <= 2_000_000_000,
            ;
        }
        let d = isqrt(dx * dx + dy * dy);
        self.last_x = px;
        self.last_y = py;
        if !self.was_moving {
            self.was_moving = true;
            self.accum = 0;
            return StepSignal::First;
        }
        proof {
            assert((d as int) * (d as int) <= 8_000_000_000_000_000_000);
            assert(0 <= d <= 3_000_000_000) by (nonlinear_arith)
                requires
                    0 <= (d as int),
                    (d as int) * (d as int) <= 8_000_000_000_000_000_000,
            ;
        }
        let raw = self.accum + d;
        let acc1: i64 = if raw > 4_000_000_000 {
            4_000_000_000
        } else {
            raw
        };
        let s: i64 = if sprinting {
            22_000
        } else {
            34_000
        };
        if acc1 >= s {
            self.accum = acc1 - s;
            StepSignal::Step
        } else {
            self.accum = acc1;
            StepSignal::Silent
        }
    }
}

/// The per-mille volume for the pursuer's footsteps at distance
/// `dist` milli-units: 250 far away, rising linearly to 1700 at close
/// range (the 30-to-450-unit band of the mix).
pub fn enemy_step_volume(dist: i64) -> (v: i64)
    requires
        0 <= dist <= 4_000_000_000,
    ensures
        v as int == ({
            let t0 = (450_000 - dist) * 1000 / 420_000;
            let t = if t0 < 0 {
                0int
            } else if t0 > 1000 {
                1000int
            } else {
                t0
            };
            250 + t * 1450 / 1000
        }),
        250 <= v <= 1700,
{
    let num = (450_000 - dist) * 1000;
    let t0 = crate::fixed::div_floor(num, 420_000);
    let t: i64 = if t0 < 0 {
        0
    } else if t0 > 1000 {
        1000
    } else {
        t0
    };
    proof {
        assert(0 <= t * 1450 <= 1_450_000) by (nonlinear_arith)
            requires
                0 <= (t as int) <= 1000,
        ;
        assert(t * 1450 <= 1450 * 1000) by (nonlinear_arith)
            requires
                0 <= (t as int) <= 1000,
        ;
        vstd::arithmetic::div_mod::lemma_div_is_ordered(
            (t as int) * 1450,
            (1450 * 1000) as int,
            1000,
        );
        vstd::arithmetic::div_mod::lemma_div_multiples_vanish(1450, 1000);
        vstd::arithmetic::div_mod::lemma_div_pos_is_pos((t as int) * 1450, 1000);
    }
    250 + (t * 1450) / 1000
}

} // verus!
