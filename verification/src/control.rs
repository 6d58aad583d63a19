//! The interaction state of one controllable entity (a plank under the
//! cursor), as an explicit state machine: being targeted, grabbed and cut
//! are states with caller-owned transitions, and an intent that does not
//! apply in the current state is a no-op, never a fault.

use vstd::prelude::*;

verus! {

/// How the player currently holds an interactive entity.
#[derive(Clone, Copy, Debug, PartialEq, Eq, Structural)]
pub enum EntityState {
    /// Not under the cursor.
    Idle,
    /// Under the cursor, ready to be grabbed or cut.
    Targeted,
    /// Grabbed: it moves and turns with the cursor.
    Selected,
    /// A cut is being traced on it.
    Cutting,
}

/// A player intent directed at an interactive entity.
#[derive(Clone, Copy, Debug, PartialEq, Eq, Structural)]
pub enum EntityEvent {
    /// The cursor moved over the entity.
    Target,
    /// The cursor moved off the entity.
    Untarget,
    Grab,
    Drop,
    BeginCut,
    /// The traced cut was committed or cancelled.
    EndCut,
}

/// The state an entity moves to on an intent: targeting precedes grabbing
/// and cutting, dropping and ending a cut release the entity, and an intent
/// that does not apply in the current state leaves it unchanged.
pub open spec fn next_entity_state(s: EntityState, e: EntityEvent) -> EntityState {
    match (s, e) {
        (EntityState::Idle, EntityEvent::Target) => EntityState::Targeted,
        (EntityState::Targeted, EntityEvent::Untarget) => EntityState::Idle,
        (EntityState::Targeted, EntityEvent::Grab) => EntityState::Selected,
        (EntityState::Targeted, EntityEvent::BeginCut) => EntityState::Cutting,
        (EntityState::Selected, EntityEvent::Drop) => EntityState::Idle,
        (EntityState::Cutting, EntityEvent::EndCut) => EntityState::Targeted,
        _ => s,
    }
}

impl EntityState {
    /// Apply one intent.
    pub fn step(self, e: EntityEvent) -> (r: EntityState)
        ensures
            r == next_entity_state(self, e),
    {
        match (self, e) {
            (EntityState::Idle, EntityEvent::Target) => EntityState::Targeted,
            (EntityState::Targeted, EntityEvent::Untarget) => EntityState::Idle,
            (EntityState::Targeted, EntityEvent::Grab) => EntityState::Selected,
            (EntityState::Targeted, EntityEvent::BeginCut) => EntityState::Cutting,
            (EntityState::Selected, EntityEvent::Drop) => EntityState::Idle,
            (EntityState::Cutting, EntityEvent::EndCut) => EntityState::Targeted,
            _ => self,
        }
    }
}

} // verus!
