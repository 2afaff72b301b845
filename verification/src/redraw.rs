//! When the overlay draws: an idle overlay skips frames. A frame is drawn
//! only when the picture can differ: after a command, a resize, a despawn, or
//! a tick on which the world still moves. A failed frame is tried again when
//! the surface can recover, and ends the loop when it cannot.

use vstd::prelude::*;

verus! {

/// How presenting a frame went.
pub enum RenderOutcome {
    Presented,
    /// The surface no longer matches the window (lost or outdated).
    SurfaceStale,
    /// The frame timed out.
    TimedOut,
    OutOfMemory,
}

/// What the event loop saw.
pub enum LoopEvent {
    /// A command from the editor was handled.
    Command,
    /// The window's size changed; `nonzero` when both sides are positive.
    Resized { nonzero: bool },
    /// The events are drained; `due` when a frame's time has come, with how
    /// many entities the step despawned and whether the world is at rest.
    Tick { due: bool, despawned: usize, quiescent: bool },
    /// A frame was drawn.
    Rendered(RenderOutcome),
}

/// What the loop does next.
pub enum LoopAction {
    Nothing,
    /// Ask the window for a frame.
    RequestRedraw,
    /// Reconfigure the surface for the window's size.
    Reconfigure,
    /// Report that rendering ran out of memory and stop.
    Exit,
}

/// Whether a frame is wanted after `event`, given whether one was wanted
/// before.
pub open spec fn wants_redraw(before: bool, event: LoopEvent) -> bool {
    match event {
        LoopEvent::Command => true,
        LoopEvent::Resized { nonzero } => before || nonzero,
        LoopEvent::Tick { due, despawned, quiescent } => if due {
            before || despawned > 0 || !quiescent
        } else {
            before
        },
        LoopEvent::Rendered(outcome) => match outcome {
            RenderOutcome::Presented => false,
            RenderOutcome::SurfaceStale => true,
            RenderOutcome::TimedOut => true,
            RenderOutcome::OutOfMemory => false,
        },
    }
}

/// What the loop does after `event`: ask for a frame on a due tick that
/// wants one, reconfigure a stale surface, stop when out of memory.
pub open spec fn loop_action(before: bool, event: LoopEvent) -> LoopAction {
    match event {
        LoopEvent::Tick { due, .. } => if due && wants_redraw(before, event) {
            LoopAction::RequestRedraw
        } else {
            LoopAction::Nothing
        },
        LoopEvent::Rendered(RenderOutcome::SurfaceStale) => LoopAction::Reconfigure,
        LoopEvent::Rendered(RenderOutcome::OutOfMemory) => LoopAction::Exit,
        _ => LoopAction::Nothing,
    }
}

/// One step of the redraw decision: whether a frame is wanted after `event`
/// and what the loop does.
pub fn redraw_step(needs_redraw: bool, event: LoopEvent) -> (out: (bool, LoopAction))
    ensures
        out.0 == wants_redraw(needs_redraw, event),
        out.1 == loop_action(needs_redraw, event),
{
    match event {
        LoopEvent::Command => (true, LoopAction::Nothing),
        LoopEvent::Resized { nonzero } => (needs_redraw || nonzero, LoopAction::Nothing),
        LoopEvent::Tick { due, despawned, quiescent } => {
            if !due {
                return (needs_redraw, LoopAction::Nothing);
            }
            let wanted = needs_redraw || despawned > 0 || !quiescent;
            if wanted {
                (true, LoopAction::RequestRedraw)
            } else {
                (false, LoopAction::Nothing)
            }
        },
        LoopEvent::Rendered(outcome) => match outcome {
            RenderOutcome::Presented => (false, LoopAction::Nothing),
            RenderOutcome::SurfaceStale => (true, LoopAction::Reconfigure),
            RenderOutcome::TimedOut => (true, LoopAction::Nothing),
            RenderOutcome::OutOfMemory => (false, LoopAction::Exit),
        },
    }
}

/// An idle overlay skips frames: once a frame is presented, ticks on which
/// nothing was despawned and the world is at rest ask for no frame, however
/// many there are.
pub proof fn law_idle_overlay_skips_frames(before: bool, despawned: usize)
    ensures
        !wants_redraw(false, LoopEvent::Tick { due: true, despawned: 0, quiescent: true }),
        loop_action(false, LoopEvent::Tick { due: true, despawned: 0, quiescent: true })
            == LoopAction::Nothing,
        !wants_redraw(before, LoopEvent::Rendered(RenderOutcome::Presented)),
        wants_redraw(before, LoopEvent::Command),
        despawned > 0 ==> loop_action(
            before,
            LoopEvent::Tick { due: true, despawned, quiescent: true },
        ) == LoopAction::RequestRedraw,
{
}


/// A resize to a real size always wants a frame, whatever was wanted before,
/// so the next due tick asks for one; so does a command. A stale surface or
/// a timed-out frame is tried again on the next due tick.
pub proof fn law_a_resize_is_always_redrawn(before: bool, despawned: usize, quiescent: bool)
    ensures
        wants_redraw(before, LoopEvent::Resized { nonzero: true }),
        loop_action(
            wants_redraw(before, LoopEvent::Resized { nonzero: true }),
            LoopEvent::Tick { due: true, despawned, quiescent },
        ) == LoopAction::RequestRedraw,
        loop_action(
            wants_redraw(before, LoopEvent::Command),
            LoopEvent::Tick { due: true, despawned, quiescent },
        ) == LoopAction::RequestRedraw,
        loop_action(
            wants_redraw(before, LoopEvent::Rendered(RenderOutcome::SurfaceStale)),
            LoopEvent::Tick { due: true, despawned, quiescent },
        ) == LoopAction::RequestRedraw,
        loop_action(
            wants_redraw(before, LoopEvent::Rendered(RenderOutcome::TimedOut)),
            LoopEvent::Tick { due: true, despawned, quiescent },
        ) == LoopAction::RequestRedraw,
        wants_redraw(before, LoopEvent::Resized { nonzero: false }) == before,
        wants_redraw(before, LoopEvent::Tick { due: false, despawned, quiescent }) == before,
{
}

} // verus!
