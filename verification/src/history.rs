//! The linear, branch-discarding undo/redo buffer over full game-state
//! snapshots, and the two-tier policy that first backs out cursor and
//! camera motion before rolling world state back.

use vstd::prelude::*;

use crate::coord::Coord;
use crate::level::{DonePlank, Level, Position, PositionZ};

verus! {


/// An immutable snapshot of the full game state.
pub struct UndoState {
    /// False for a pure camera/cursor reposition, true for a world change.
    pub is_action: bool,
    pub level: Level,
    pub done_planks: Vec<DonePlank>,
    pub cursor: Position,
    pub camera: (Position, PositionZ),
}

/// An ordered sequence of snapshots plus a cursor into it. Pushing a new
/// snapshot discards any undone future: the history never branches.
pub struct UndoBuffer {
    pub states: Vec<UndoState>,
    pub pos: usize,
}

/// What a time-travel request decided.
pub enum StepKind {
    /// Nothing to travel to: the request is a no-op.
    NoStep,
    /// Only the cursor and camera are restored from the adjacent snapshot;
    /// the cursor of the history does not move.
    Reposition,
    /// The world state is restored and the history cursor moves.
    Restore,
}

impl UndoBuffer {
    /// The cursor lies inside the sequence of snapshots.
    pub open spec fn wf(&self) -> bool {
        self.pos < self.states@.len()
    }

    /// A sentinel buffer that no operation may be called on.
    pub fn invalid() -> (r: UndoBuffer)
        ensures
            r.states@.len() == 0,
            r.pos == usize::MAX,
            !r.wf(),
    {
        UndoBuffer { states: Vec::new(), pos: usize::MAX }
    }

    /// A fresh history holding one initial non-action snapshot.
    pub fn new(level: Level) -> (r: UndoBuffer)
        ensures
            r.wf(),
            r.pos == 0,
            r.states@.len() == 1,
            !r.states@[0].is_action,
            r.states@[0].level == level,
            r.states@[0].done_planks@.len() == 0,
            r.states@[0].cursor.0@ == (0int, 0int),
            r.states@[0].camera.0.0@ == (0int, 0int),
            r.states@[0].camera.1.0 == 0,
    {
        let st = UndoState {
            is_action: false,
            level,
            done_planks: Vec::new(),
            cursor: Position(Coord { x: 0, y: 0 }),
            camera: (Position(Coord { x: 0, y: 0 }), PositionZ(0)),
        };
        let mut states = Vec::new();
        states.push(st);
        UndoBuffer { states, pos: 0 }
    }

    /// Append a snapshot, discarding any undone future first, and move the
    /// cursor onto it.
    pub fn push_state(
        &mut self,
        is_action: bool,
        level: Level,
        done_planks: Vec<DonePlank>,
        cursor: Position,
        camera: (Position, PositionZ),
    )
        requires
            old(self).wf(),
        ensures
            final(self).wf(),
            final(self).states@.len() == old(self).pos + 2,
            final(self).pos == old(self).pos + 1,
            final(self).states@ == old(self).states@.take(old(self).pos + 1).push(
                (UndoState { is_action, level, done_planks, cursor, camera }),
            ),
            final(self).states@[final(self).pos as int] == (UndoState {
                is_action,
                level,
                done_planks,
                cursor,
                camera,
            }),
    {
        // reading the length shows the cursor + 1 fits in a machine word
        let _len = self.states.len();
        self.states.truncate(self.pos + 1);
        self.states.push(UndoState { is_action, level, done_planks, cursor, camera });
        self.pos = self.states.len() - 1;
    }

    /// The snapshot under the cursor.
    pub fn current_state(&self) -> (r: &UndoState)
        requires
            self.wf(),
        ensures
            r == self.states@[self.pos as int],
    {
        &self.states[self.pos]
    }

    /// The snapshot just behind the cursor, if any.
    pub fn prev(&self) -> (r: Option<&UndoState>)
        requires
            self.wf(),
        ensures
            self.pos == 0 ==> r is None,
            self.pos > 0 ==> r == Some(&self.states@[self.pos - 1]),
    {
        if !self.has_back() {
            return None;
        }
        Some(&self.states[self.pos - 1])
    }

    /// The snapshot just ahead of the cursor, if any.
    pub fn next(&self) -> (r: Option<&UndoState>)
        requires
            self.wf(),
        ensures
            self.pos == self.states@.len() - 1 ==> r is None,
            self.pos < self.states@.len() - 1 ==> r == Some(&self.states@[self.pos + 1]),
    {
        if !self.has_forward() {
            return None;
        }
        // reading the length shows the cursor + 1 fits in a machine word
        let _len = self.states.len();
        Some(&self.states[self.pos + 1])
    }

    pub fn has_back(&self) -> (r: bool)
        ensures
            r == (self.pos > 0),
    {
        self.pos > 0
    }

    pub fn has_forward(&self) -> (r: bool)
        requires
            self.wf(),
        ensures
            r == (self.pos < self.states@.len() - 1),
    {
        self.pos < self.states.len() - 1
    }

    /// Step the cursor back one snapshot; a no-op at the oldest snapshot.
    pub fn move_back(&mut self)
        requires
            old(self).wf(),
        ensures
            final(self).wf(),
            final(self).states == old(self).states,
            old(self).pos > 0 ==> final(self).pos == old(self).pos - 1,
            old(self).pos == 0 ==> final(self).pos == 0,
    {
        if self.has_back() {
            self.pos = self.pos - 1;
        }
    }

    /// Step the cursor forward one snapshot; a no-op at the newest snapshot.
    pub fn move_forward(&mut self)
        requires
            old(self).wf(),
        ensures
            final(self).wf(),
            final(self).states == old(self).states,
            old(self).pos < old(self).states@.len() - 1 ==> final(self).pos == old(self).pos + 1,
            old(self).pos == old(self).states@.len() - 1 ==> final(self).pos == old(self).pos,
    {
        if self.has_forward() {
            // reading the length shows the cursor + 1 fits in a machine word
            let _len = self.states.len();
            self.pos = self.pos + 1;
        }
    }

    /// Decide one "undo" request. If the current snapshot is an action and
    /// the live cursor or camera differs from the previous snapshot's, only
    /// the cursor and camera are restored (from the previous snapshot) and
    /// the history does not move; otherwise the previous snapshot's world
    /// state is restored and the history steps back.
    pub fn undo_step(&mut self, cursor: Position, camera: (Position, PositionZ)) -> (r: StepKind)
        requires
            old(self).wf(),
        ensures
            final(self).wf(),
            final(self).states == old(self).states,
            old(self).pos == 0 ==> r is NoStep && final(self).pos == old(self).pos,
            old(self).pos > 0 && old(self).states@[old(self).pos as int].is_action && (cursor
                != old(self).states@[old(self).pos - 1].cursor || camera != old(self).states@[old(self).pos - 1].camera) ==> r is Reposition && final(self).pos == old(self).pos,
            old(self).pos > 0 && !(old(self).states@[old(self).pos as int].is_action && (cursor
                != old(self).states@[old(self).pos - 1].cursor || camera != old(self).states@[old(self).pos - 1].camera)) ==> r is Restore && final(self).pos == old(self).pos - 1,
    {
        if self.pos == 0 {
            return StepKind::NoStep;
        }
        let current_is_action = self.states[self.pos].is_action;
        let prev_cursor = self.states[self.pos - 1].cursor;
        let prev_camera = self.states[self.pos - 1].camera;
        let same_view = cursor.0.x == prev_cursor.0.x && cursor.0.y == prev_cursor.0.y
            && camera.0.0.x == prev_camera.0.0.x && camera.0.0.y == prev_camera.0.0.y
            && camera.1.0 == prev_camera.1.0;
        if current_is_action && !same_view {
            StepKind::Reposition
        } else {
            self.pos = self.pos - 1;
            StepKind::Restore
        }
    }

    /// Decide one "redo" request, symmetrically to `undo_step`: if the next
    /// snapshot is an action and the live cursor or camera differs from that
    /// snapshot's, only the cursor and camera are restored (from the next
    /// snapshot); else the next snapshot's world state is restored and the
    /// history steps forward.
    pub fn redo_step(&mut self, cursor: Position, camera: (Position, PositionZ)) -> (r: StepKind)
        requires
            old(self).wf(),
        ensures
            final(self).wf(),
            final(self).states == old(self).states,
            old(self).pos == old(self).states@.len() - 1 ==> r is NoStep && final(self).pos == old(self).pos,
            old(self).pos < old(self).states@.len() - 1 && old(self).states@[old(self).pos
                + 1].is_action && (cursor != old(self).states@[old(self).pos + 1].cursor || camera
                != old(self).states@[old(self).pos + 1].camera) ==> r is Reposition && final(self).pos == old(self).pos,
            old(self).pos < old(self).states@.len() - 1 && !(old(self).states@[old(self).pos
                + 1].is_action && (cursor != old(self).states@[old(self).pos + 1].cursor || camera
                != old(self).states@[old(self).pos + 1].camera)) ==> r is Restore && final(self).pos == old(self).pos + 1,
    {
        if self.pos >= self.states.len() - 1 {
            return StepKind::NoStep;
        }
        let next_is_action = self.states[self.pos + 1].is_action;
        let next_cursor = self.states[self.pos + 1].cursor;
        let next_camera = self.states[self.pos + 1].camera;
        let same_view = cursor.0.x == next_cursor.0.x && cursor.0.y == next_cursor.0.y
            && camera.0.0.x == next_camera.0.0.x && camera.0.0.y == next_camera.0.0.y
            && camera.1.0 == next_camera.1.0;
        if next_is_action && !same_view {
            StepKind::Reposition
        } else {
            self.pos = self.pos + 1;
            StepKind::Restore
        }
    }
}


/// History round trip: pushing a snapshot onto a well-formed history, then
/// stepping back and stepping forward again, leaves the current snapshot
/// exactly the one pushed. The lets below mirror, in order, the contracts of
/// `push_state`, `move_back` and `move_forward`, and the claim is what
/// `current_state` then returns.
pub proof fn lemma_history_round_trip(h: UndoBuffer, st: UndoState)
    requires
        h.wf(),
    ensures
        ({
            let pushed_states = h.states@.take(h.pos + 1).push(st);
            let pushed_pos = h.pos + 1;
            let back_pos = pushed_pos - 1;
            let fwd_pos = back_pos + 1;
            &&& 0 < pushed_pos < pushed_states.len()
            &&& pushed_states[fwd_pos as int] == st
        }),
{
}

/// Redo truncation: pushing a snapshot discards the undone future, so no
/// redo is available afterwards, regardless of how far back the history
/// stood. The let mirrors `push_state`'s contract; the claim is that
/// `has_forward` is then false.
pub proof fn lemma_redo_truncation(h: UndoBuffer, st: UndoState)
    requires
        h.wf(),
    ensures
        ({
            let pushed_states = h.states@.take(h.pos + 1).push(st);
            let pushed_pos = h.pos + 1;
            !(pushed_pos < pushed_states.len() - 1)
        }),
{
}



impl Default for UndoBuffer {
    /// The default buffer is the invalid sentinel.
    fn default() -> (r: Self)
        ensures
            r.states@.len() == 0,
            r.pos == usize::MAX,
    {
        Self::invalid()
    }
}


} // verus!
