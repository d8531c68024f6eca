//! Which animation plays: the intro, a pour in its phases, the effects of a
//! pour, or nothing. How long each one lasts is left to the caller.
use vstd::prelude::*;

use crate::view::MovePlan;

verus! {

/// The phases of a pour: the bottle travels over the target, the liquid
/// streams, the bottle returns.
#[derive(Clone, Copy, PartialEq, Eq, Debug)]
pub enum PourPhase {
    Travel,
    Stream,
    Return,
}

/// The animation that plays.
pub enum FlowKind {
    Intro,
    Idle,
    Pour { plan: MovePlan, phase: PourPhase },
    Effects { plan: MovePlan },
}

/// What plays once `k` has run its course: a pour goes through its phases
/// and then its effects; the intro and the effects end in idle.
pub open spec fn step_view(k: FlowKind) -> FlowKind {
    match k {
        FlowKind::Pour { plan, phase: PourPhase::Travel } => FlowKind::Pour {
            plan,
            phase: PourPhase::Stream,
        },
        FlowKind::Pour { plan, phase: PourPhase::Stream } => FlowKind::Pour {
            plan,
            phase: PourPhase::Return,
        },
        FlowKind::Pour { plan, phase: PourPhase::Return } => FlowKind::Effects { plan },
        _ => FlowKind::Idle,
    }
}

/// What plays after `n` runs in turn.
pub open spec fn steps(k: FlowKind, n: nat) -> FlowKind
    decreases n,
{
    if n == 0 {
        k
    } else {
        steps(step_view(k), (n - 1) as nat)
    }
}

impl FlowKind {
    /// Whether an animation still plays.
    pub fn is_busy(&self) -> (r: bool)
        ensures
            r == !(*self is Idle),
    {
        match self {
            FlowKind::Idle => false,
            _ => true,
        }
    }

    /// What plays once this animation has run its course.
    pub fn step(self) -> (r: FlowKind)
        ensures
            r == step_view(self),
    {
        match self {
            FlowKind::Pour { plan, phase: PourPhase::Travel } => FlowKind::Pour {
                plan,
                phase: PourPhase::Stream,
            },
            FlowKind::Pour { plan, phase: PourPhase::Stream } => FlowKind::Pour {
                plan,
                phase: PourPhase::Return,
            },
            FlowKind::Pour { plan, phase: PourPhase::Return } => FlowKind::Effects { plan },
            _ => FlowKind::Idle,
        }
    }
}

/// Finishing early lands on idle from any phase: at most four runs end
/// every animation, and idle stays idle.
pub proof fn law_animations_end(k: FlowKind)
    ensures
        steps(k, 4) is Idle,
        step_view(FlowKind::Idle) is Idle,
{
    reveal_with_fuel(steps, 5);
}

} // verus!
