//! When the integrator stops following a light path.

use vstd::prelude::*;

verus! {

/// What happened where the ray was traced.
#[derive(Clone, Copy, Debug, PartialEq, Eq, Structural)]
pub enum Event {
    /// The ray left the scene.
    Miss,
    /// The ray met a surface whose material absorbed it.
    Absorbed,
    /// The ray met a surface and was scattered.
    Scattered,
}

/// What the integrator does next.
#[derive(Clone, Copy, Debug, PartialEq, Eq, Structural)]
pub enum PathStep {
    /// The path contributes black.
    Black,
    /// The path contributes the background gradient, weighted by the
    /// attenuations gathered so far.
    Background,
    /// Follow the scattered ray with `depth` bounces left.
    Continue { depth: u16 },
}

/// The step for a path with `depth` bounces left whose ray ended in `event`.
pub open spec fn step_of(depth: u16, event: Event) -> PathStep {
    if depth == 0 {
        PathStep::Black
    } else {
        match event {
            Event::Miss => PathStep::Background,
            Event::Absorbed => PathStep::Black,
            Event::Scattered => PathStep::Continue { depth: (depth - 1) as u16 },
        }
    }
}

/// One step of the integrator. With no bounce left the path is black and
/// `trace` is not called; otherwise `trace` intersects the ray with the
/// scene and scatters it, and its event decides.
pub fn path_step<F: FnOnce() -> Event>(depth: u16, trace: F) -> (r: PathStep)
    requires
        depth > 0 ==> trace.requires(()),
    ensures
        depth == 0 ==> r == PathStep::Black,
        depth > 0 ==> exists|e: Event| trace.ensures((), e) && r == step_of(depth, e),
{
    if depth == 0 {
        return PathStep::Black;
    }
    let event = trace();
    let r = match event {
        Event::Miss => PathStep::Background,
        Event::Absorbed => PathStep::Black,
        Event::Scattered => PathStep::Continue { depth: depth - 1 },
    };
    assert(r == step_of(depth, event));
    r
}

/// The number of scatterings a path with `depth` bounces left goes through
/// before it ends, given the events its rays meet in turn, and whether it
/// ends on the background.
pub open spec fn path_end(depth: u16, events: Seq<Event>) -> (nat, bool)
    decreases depth,
{
    if depth == 0 || events.len() == 0 {
        (0, false)
    } else {
        match step_of(depth, events[0]) {
            PathStep::Continue { depth: d } => {
                let (n, sky) = path_end(d, events.drop_first());
                (n + 1, sky)
            },
            PathStep::Background => (0, true),
            PathStep::Black => (0, false),
        }
    }
}

/// A path scatters at most `depth` times, and one with no bounce left is
/// black whatever the scene.
pub proof fn lemma_path_bounded(depth: u16, events: Seq<Event>)
    ensures
        path_end(depth, events).0 <= depth,
        depth == 0 ==> path_end(depth, events) == (0nat, false),
    decreases depth,
{
    if depth > 0 && events.len() > 0 {
        if events[0] == Event::Scattered {
            lemma_path_bounded((depth - 1) as u16, events.drop_first());
        }
    }
}

} // verus!
