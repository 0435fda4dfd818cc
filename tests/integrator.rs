use ballmaker::integrator::{Bounce, PathState, PathStep, Radiance, SimpleRayEvaluator};

/// Runs the evaluator over a fixed list of events; `None` when it asks for more events
/// than the list holds.
fn run(max_bounces: usize, events: &[Bounce]) -> Option<Radiance> {
    let ev = SimpleRayEvaluator;
    let mut step = ev.start(max_bounces);
    let mut i = 0;
    loop {
        match step {
            PathStep::Done(r) => return Some(r),
            PathStep::Trace(s) => {
                let e = *events.get(i)?;
                i += 1;
                step = ev.step(s, e);
            }
        }
    }
}

#[test]
fn no_bounces_is_black() {
    assert_eq!(run(0, &[Bounce::Miss]), Some(Radiance::Black));
}

#[test]
fn miss_is_background_itself() {
    assert_eq!(run(8, &[Bounce::Miss]), Some(Radiance::Background { depth: 0 }));
}

#[test]
fn absorbing_material_is_black() {
    assert_eq!(run(8, &[Bounce::Absorbed]), Some(Radiance::Black));
    assert_eq!(run(8, &[Bounce::Scattered, Bounce::Absorbed]), Some(Radiance::Black));
}

#[test]
fn scatter_then_escape_counts_depth() {
    let events = [Bounce::Scattered, Bounce::Scattered, Bounce::Miss];
    assert_eq!(run(8, &events), Some(Radiance::Background { depth: 2 }));
    assert_eq!(run(3, &events), Some(Radiance::Background { depth: 2 }));
    assert_eq!(run(2, &events), Some(Radiance::Black));
}

#[test]
fn step_decrements_bounces() {
    let ev = SimpleRayEvaluator;
    assert_eq!(ev.start(3), PathStep::Trace(PathState { remaining: 3, depth: 0 }));
    assert_eq!(
        ev.step(PathState { remaining: 3, depth: 0 }, Bounce::Scattered),
        PathStep::Trace(PathState { remaining: 2, depth: 1 })
    );
    assert_eq!(
        ev.step(PathState { remaining: 1, depth: 4 }, Bounce::Scattered),
        PathStep::Done(Radiance::Black)
    );
    assert_eq!(
        ev.step(PathState { remaining: 1, depth: 4 }, Bounce::Miss),
        PathStep::Done(Radiance::Background { depth: 4 })
    );
}
