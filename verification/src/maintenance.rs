//! The maintenance cycle: expired records are trimmed, the manifest is saved, and expired
//! segments of the log are dropped, in this order.
use vstd::prelude::*;

verus! {

/// What has been done in a cycle.
#[derive(Clone, Copy, Debug, PartialEq, Eq, Structural)]
pub enum CycleEvent {
    /// The expired records were trimmed.
    Trimmed,
    /// The manifest was saved (or not).
    Saved(bool),
}

/// What is to be done next in a cycle.
#[derive(Clone, Copy, Debug, PartialEq, Eq, Structural)]
pub enum CycleAction {
    /// Save the manifest.
    Save,
    /// Drop the segments of the log that have expired by the retentions of the saved streams.
    Drop,
    /// Wait for the next cycle.
    Wait,
}

/// What comes after an event.
pub open spec fn step_after(event: CycleEvent, persistent: bool) -> CycleAction {
    match event {
        CycleEvent::Trimmed => if persistent {
            CycleAction::Save
        } else {
            CycleAction::Wait
        },
        CycleEvent::Saved(true) => CycleAction::Drop,
        CycleEvent::Saved(false) => CycleAction::Wait,
    }
}

/// Decides what comes next in a cycle. Without persistence there is nothing to save or to drop.
/// Segments are dropped only after a successful save, so that a crash cannot lose the last
/// sequence number that was given out.
pub fn next_step(event: CycleEvent, persistent: bool) -> (r: CycleAction)
    ensures
        r == step_after(event, persistent),
{
    match event {
        CycleEvent::Trimmed => if persistent {
            CycleAction::Save
        } else {
            CycleAction::Wait
        },
        CycleEvent::Saved(true) => CycleAction::Drop,
        CycleEvent::Saved(false) => CycleAction::Wait,
    }
}

/// Segments are dropped only after a successful save of the manifest, and a save is asked for
/// only where there is persistence.
pub proof fn law_segments_are_dropped_after_a_save(event: CycleEvent, persistent: bool)
    ensures
        step_after(event, persistent) is Drop ==> event == CycleEvent::Saved(true),
        step_after(event, persistent) is Save ==> persistent && event == CycleEvent::Trimmed,
{
}

} // verus!
