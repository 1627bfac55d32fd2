//! The slew animator: a scalar approaches a target at a bounded rate, with
//! no overshoot, and reaches it exactly after finitely many steps.

use vstd::prelude::*;

verus! {

/// Maximum distance a displayed position may travel toward its target per
/// unit of elapsed time.
pub const SLEW_RATE: i64 = 300;

/// Largest elapsed-time argument a single animation step accepts.
pub const MAX_DT: i64 = 1_000_000;

/// Bound on every coordinate the model stores; keeps all position
/// arithmetic far away from `i64` overflow.
pub const MAX_COORD: i64 = 0x1000_0000_0000;

/// A scalar coordinate the model is allowed to store.
pub open spec fn in_range(v: int) -> bool {
    -MAX_COORD <= v <= MAX_COORD
}

/// A displayed scalar (`current`) together with the value the layout wants
/// it to have (`target`). `current` moves only through `update`.
#[derive(Clone, Copy, PartialEq, Eq, Structural, Debug)]
pub struct SlewPair {
    pub current: i64,
    pub target: i64,
}

/// One slew step: move `current` toward `target` by at most
/// `dt * SLEW_RATE`, never past it.
pub open spec fn slew_step(current: int, target: int, dt: int) -> int {
    let step = dt * (SLEW_RATE as int);
    if target >= current {
        if target - current <= step {
            target
        } else {
            current + step
        }
    } else {
        if current - target <= step {
            target
        } else {
            current - step
        }
    }
}

/// `n` slew steps in a row, each with the same elapsed time.
pub open spec fn slew_iter(current: int, target: int, dt: int, n: nat) -> int
    decreases n,
{
    if n == 0 {
        current
    } else {
        slew_iter(slew_step(current, target, dt), target, dt, (n - 1) as nat)
    }
}

impl SlewPair {
    /// Both scalars of the pair are storable coordinates.
    pub open spec fn wf(self) -> bool {
        in_range(self.current as int) && in_range(self.target as int)
    }

    /// A pair at rest at position zero.
    pub fn zero() -> (r: SlewPair)
        ensures
            r == (SlewPair { current: 0i64, target: 0i64 }),
    {
        SlewPair { current: 0, target: 0 }
    }

    /// Advance `current` toward `target` for `dt` elapsed time units.
    pub fn update(&mut self, dt: i64)
        requires
            old(self).wf(),
            0 <= dt <= MAX_DT,
        ensures
            final(self).current as int == slew_step(
                old(self).current as int,
                old(self).target as int,
                dt as int,
            ),
            final(self).target == old(self).target,
            final(self).wf(),
    {
        let diff: i64 = self.target - self.current;
        let step: i64 = dt * SLEW_RATE;
        let delta: i64 = if diff >= 0 {
            if diff <= step {
                diff
            } else {
                step
            }
        } else {
            if -diff <= step {
                diff
            } else {
                -step
            }
        };
        self.current = self.current + delta;
    }
}

/// After one step the moving scalar stands between where it was and its
/// target, so a slewed coordinate never leaves the storable range.
pub proof fn lemma_slew_step_between(current: int, target: int, dt: int)
    requires
        0 <= dt,
    ensures
        current <= target ==> current <= slew_step(current, target, dt) <= target,
        target <= current ==> target <= slew_step(current, target, dt) <= current,
{
}

/// Convergence: with a fixed target and a positive time step, slewing
/// reaches the target exactly once the steps taken cover the initial
/// distance, i.e. after at most `|target - current| / (dt * SLEW_RATE)`
/// steps, rounded up.
pub proof fn lemma_slew_converges(current: int, target: int, dt: int, n: nat)
    requires
        1 <= dt,
        n * (dt * (SLEW_RATE as int)) >= vstd::math::abs(target - current),
    ensures
        slew_iter(current, target, dt, n) == target,
    decreases n,
{
    let step = dt * (SLEW_RATE as int);
    if n == 0 {
        assert(n * step == 0) by (nonlinear_arith)
            requires
                n == 0,
        ;
        assert(vstd::math::abs(target - current) == 0);
    } else {
        let next = slew_step(current, target, dt);
        assert((n - 1) * step == n * step - step) by (nonlinear_arith);
        assert(step >= 300) by (nonlinear_arith)
            requires
                1 <= dt,
                step == dt * (SLEW_RATE as int),
        ;
        assert(vstd::math::abs(target - next) <= vstd::math::abs(target - current) - step
            || vstd::math::abs(target - next) == 0);
        lemma_slew_converges(next, target, dt, (n - 1) as nat);
    }
}

} // verus!
