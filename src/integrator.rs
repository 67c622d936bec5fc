use vstd::prelude::*;

verus! {

/// The depth at which a path is cut off.
pub const MAX_DEPTH: u32 = 50;

/// What happened to a ray at one bounce.
#[derive(Clone, Copy, Debug, PartialEq, Eq, Structural)]
pub enum Event {
    /// The ray hit nothing: it sees the background.
    Missed,
    /// The ray hit a surface whose material did not scatter it.
    Absorbed,
    /// The ray hit a surface whose material scattered it.
    Scattered,
}

/// What the integrator does after a bounce.
#[derive(Clone, Copy, Debug, PartialEq, Eq, Structural)]
pub enum Step {
    /// The path ends with the background's radiance.
    Background,
    /// The path ends with no radiance.
    Black,
    /// The path goes on with the scattered ray, at the given depth.
    Continue(u32),
}

/// The step after an event at a depth: a miss sees the background; a scatter
/// goes one level deeper while the depth is below the cap; anything else is
/// black.
pub open spec fn step_spec(depth: u32, e: Event) -> Step {
    match e {
        Event::Missed => Step::Background,
        Event::Absorbed => Step::Black,
        Event::Scattered => if depth < MAX_DEPTH {
            Step::Continue((depth + 1) as u32)
        } else {
            Step::Black
        },
    }
}

/// The step after an event at a depth.
pub fn next_step(depth: u32, e: Event) -> (s: Step)
    ensures
        s == step_spec(depth, e),
{
    match e {
        Event::Missed => Step::Background,
        Event::Absorbed => Step::Black,
        Event::Scattered => {
            if depth < MAX_DEPTH {
                Step::Continue(depth + 1)
            } else {
                Step::Black
            }
        },
    }
}

/// Where a path that is at `depth` ends, when `ev(d)` is what happens at depth
/// `d`: the depth of its last bounce and the step that ends it.
pub open spec fn path_end(depth: u32, ev: spec_fn(u32) -> Event) -> (u32, Step)
    decreases MAX_DEPTH - depth,
{
    match step_spec(depth, ev(depth)) {
        Step::Continue(next) => if depth < MAX_DEPTH {
            path_end(next, ev)
        } else {
            (depth, Step::Black)
        },
        s => (depth, s),
    }
}

/// No path goes deeper than the cap, and none ends by going on.
pub proof fn lemma_path_bounded(depth: u32, ev: spec_fn(u32) -> Event)
    requires
        depth <= MAX_DEPTH,
    ensures
        depth <= path_end(depth, ev).0 <= MAX_DEPTH,
        !(path_end(depth, ev).1 is Continue),
    decreases MAX_DEPTH - depth,
{
    if depth < MAX_DEPTH && ev(depth) == Event::Scattered {
        lemma_path_bounded((depth + 1) as u32, ev);
    }
}

/// A path that is scattered at every bounce ends black at exactly the cap.
pub proof fn lemma_depth_cap(depth: u32, ev: spec_fn(u32) -> Event)
    requires
        depth <= MAX_DEPTH,
        forall|d: u32| #[trigger] ev(d) == Event::Scattered,
    ensures
        path_end(depth, ev) == (MAX_DEPTH, Step::Black),
    decreases MAX_DEPTH - depth,
{
    if depth < MAX_DEPTH {
        lemma_depth_cap((depth + 1) as u32, ev);
    }
}

} // verus!
