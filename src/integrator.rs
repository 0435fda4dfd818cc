//! The path integrator's decisions. A path is followed ray by ray: each traced ray either
//! escapes the scene, is absorbed, or scatters into the next ray. The radiance carried back
//! is black, or the product of the attenuations met along the way times the background seen
//! by the ray that escaped.
use vstd::prelude::*;

verus! {

/// What a traced ray met.
#[derive(Clone, Copy, PartialEq, Eq, Structural, Debug)]
pub enum Bounce {
    /// It hit nothing and sees the background.
    Miss,
    /// It hit a surface whose material absorbed it.
    Absorbed,
    /// It hit a surface whose material scattered it into a new ray.
    Scattered,
}

/// The radiance a path comes to.
#[derive(Clone, Copy, PartialEq, Eq, Structural, Debug)]
pub enum Radiance {
    /// Black.
    Black,
    /// The background seen by the ray that escaped after `depth` scatterings, times the
    /// attenuations of those scatterings; with `depth == 0` it is the background itself.
    Background { depth: usize },
}

/// Where a path stands: bounces left, and scatterings so far.
#[derive(Clone, Copy, PartialEq, Eq, Structural, Debug)]
pub struct PathState {
    pub remaining: usize,
    pub depth: usize,
}

/// What follows: trace the current ray from `PathState`, or the path is done.
#[derive(Clone, Copy, PartialEq, Eq, Structural, Debug)]
pub enum PathStep {
    Trace(PathState),
    Done(Radiance),
}

/// One scattering more in front of a radiance.
pub open spec fn deeper(r: Radiance, by: nat) -> Radiance {
    match r {
        Radiance::Black => Radiance::Black,
        Radiance::Background { depth } => Radiance::Background { depth: (depth + by) as usize },
    }
}

/// The radiance along a ray with `remaining` bounces left, where the `k`-th ray traced from
/// here meets `events(i + k)`: black with no bounce left, the background on a miss, black on
/// absorption, else the attenuation times the radiance of the scattered ray.
pub open spec fn li_spec(events: spec_fn(nat) -> Bounce, i: nat, remaining: nat) -> Radiance
    decreases remaining,
{
    if remaining == 0 {
        Radiance::Black
    } else {
        match events(i) {
            Bounce::Miss => Radiance::Background { depth: 0 },
            Bounce::Absorbed => Radiance::Black,
            Bounce::Scattered => deeper(li_spec(events, i + 1, (remaining - 1) as nat), 1),
        }
    }
}

/// The first decision for a ray with `max_bounces` bounces.
pub open spec fn start_spec(max_bounces: nat) -> PathStep {
    if max_bounces == 0 {
        PathStep::Done(Radiance::Black)
    } else {
        PathStep::Trace(PathState { remaining: max_bounces as usize, depth: 0 })
    }
}

/// The decision after the ray traced from `state` met `event`.
pub open spec fn step_spec(state: PathState, event: Bounce) -> PathStep {
    match event {
        Bounce::Miss => PathStep::Done(Radiance::Background { depth: state.depth }),
        Bounce::Absorbed => PathStep::Done(Radiance::Black),
        Bounce::Scattered => if state.remaining <= 1 {
            PathStep::Done(Radiance::Black)
        } else {
            PathStep::Trace(
                PathState { remaining: (state.remaining - 1) as usize, depth: (state.depth + 1) as usize },
            )
        },
    }
}

pub open spec fn steps_left(step: PathStep) -> nat {
    match step {
        PathStep::Trace(s) => s.remaining as nat,
        PathStep::Done(_) => 0,
    }
}

/// The radiance reached by following the decisions from `step`, the next traced ray
/// meeting `events(i)`.
pub open spec fn drive(events: spec_fn(nat) -> Bounce, i: nat, step: PathStep) -> Radiance
    decreases steps_left(step),
{
    match step {
        PathStep::Done(r) => r,
        PathStep::Trace(s) => if s.remaining > 0 {
            drive(events, i + 1, step_spec(s, events(i)))
        } else {
            Radiance::Black
        },
    }
}

/// Evaluates the radiance along a ray by following its path one traced ray at a time,
/// carrying the product of the attenuations instead of recursing.
#[derive(Clone, Copy, Default)]
pub struct SimpleRayEvaluator;

impl SimpleRayEvaluator {
    /// The first decision for a ray allowed `max_bounces` bounces.
    pub fn start(&self, max_bounces: usize) -> (r: PathStep)
        ensures
            r == start_spec(max_bounces as nat),
    {
        if max_bounces == 0 {
            PathStep::Done(Radiance::Black)
        } else {
            PathStep::Trace(PathState { remaining: max_bounces, depth: 0 })
        }
    }

    /// The decision after the ray traced from `state` met `event`.
    pub fn step(&self, state: PathState, event: Bounce) -> (r: PathStep)
        requires
            state.depth + state.remaining <= usize::MAX,
        ensures
            r == step_spec(state, event),
            match r {
                PathStep::Trace(s) => s.depth + s.remaining <= usize::MAX,
                PathStep::Done(_) => true,
            },
    {
        match event {
            Bounce::Miss => PathStep::Done(Radiance::Background { depth: state.depth }),
            Bounce::Absorbed => PathStep::Done(Radiance::Black),
            Bounce::Scattered => if state.remaining <= 1 {
                PathStep::Done(Radiance::Black)
            } else {
                PathStep::Trace(PathState { remaining: state.remaining - 1, depth: state.depth + 1 })
            },
        }
    }
}

proof fn lemma_drive_from(events: spec_fn(nat) -> Bounce, i: nat, s: PathState)
    requires
        s.remaining > 0,
        s.depth + s.remaining <= usize::MAX,
    ensures
        drive(events, i, PathStep::Trace(s)) == deeper(li_spec(events, i, s.remaining as nat), s.depth as nat),
    decreases s.remaining,
{
    assert(drive(events, i, PathStep::Trace(s)) == drive(events, i + 1, step_spec(s, events(i))));
    match events(i) {
        Bounce::Miss => {},
        Bounce::Absorbed => {},
        Bounce::Scattered => {
            if s.remaining > 1 {
                let next = PathState { remaining: (s.remaining - 1) as usize, depth: (s.depth + 1) as usize };
                lemma_drive_from(events, i + 1, next);
                match li_spec(events, i + 1, (s.remaining - 1) as nat) {
                    Radiance::Black => {},
                    Radiance::Background { depth } => {
                        lemma_depth_bound(events, i + 1, (s.remaining - 1) as nat);
                    },
                }
            }
        },
    }
}

/// A path that escapes does so after fewer scatterings than it had bounces.
pub proof fn lemma_depth_bound(events: spec_fn(nat) -> Bounce, i: nat, remaining: nat)
    requires
        remaining <= usize::MAX,
    ensures
        match li_spec(events, i, remaining) {
            Radiance::Background { depth } => depth < remaining,
            Radiance::Black => true,
        },
    decreases remaining,
{
    if remaining > 0 {
        lemma_depth_bound(events, i + 1, (remaining - 1) as nat);
    }
}

/// Following the decisions of `start` and `step` yields the radiance that the recursive
/// definition gives: the iterative evaluation agrees with the recursion.
pub proof fn lemma_iteration_matches_recursion(events: spec_fn(nat) -> Bounce, max_bounces: usize)
    ensures
        drive(events, 0, start_spec(max_bounces as nat)) == li_spec(events, 0, max_bounces as nat),
{
    if max_bounces > 0 {
        lemma_drive_from(events, 0, PathState { remaining: max_bounces, depth: 0 });
        match li_spec(events, 0, max_bounces as nat) {
            Radiance::Black => {},
            Radiance::Background { depth } => {},
        }
    }
}

/// With no bounce left the radiance is black.
pub proof fn lemma_li_no_bounces(events: spec_fn(nat) -> Bounce)
    ensures
        drive(events, 0, start_spec(0)) == Radiance::Black,
{
}

/// A ray that hits nothing carries exactly the background it sees.
pub proof fn lemma_li_miss(events: spec_fn(nat) -> Bounce, max_bounces: usize)
    requires
        max_bounces > 0,
        events(0) == Bounce::Miss,
    ensures
        drive(events, 0, start_spec(max_bounces as nat)) == (Radiance::Background { depth: 0 }),
{
    lemma_iteration_matches_recursion(events, max_bounces);
}

/// A ray whose hit material absorbs it carries black.
pub proof fn lemma_li_absorbed(events: spec_fn(nat) -> Bounce, max_bounces: usize)
    requires
        events(0) == Bounce::Absorbed,
    ensures
        drive(events, 0, start_spec(max_bounces as nat)) == Radiance::Black,
{
    lemma_iteration_matches_recursion(events, max_bounces);
}

} // verus!
