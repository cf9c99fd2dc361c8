//! The sling-shot decision core: the drag state of the launcher and what
//! each input event does to it. The window, camera and cursor plumbing live
//! outside; this module takes cursor positions as plain values and hands back
//! the launch velocity.

use vstd::prelude::*;

use crate::geom::{dist_sq, dist_sq_exec, pos_wf, Pos, Vec2I};

verus! {

/// How close, in micro-units, a press must be to the sling to grab it
/// (20 world units).
pub const GRAB_RADIUS: i64 = 20_000_000;

/// Multiplier from drag displacement to launch velocity.
pub const FORCE_SCALE: i64 = 5;

/// A launch velocity in micro-units per second per component.
#[derive(Clone, Copy, Debug, PartialEq, Eq, Structural)]
pub struct Velocity {
    pub x: i64,
    pub y: i64,
}

/// The launcher: its anchor position and, while the player drags, the
/// current drag position.
#[derive(Clone, Copy, Debug)]
pub struct Sling {
    pub pos: Pos,
    pub drag_pos: Option<Pos>,
}

impl Sling {
    pub open spec fn wf(&self) -> bool {
        &&& pos_wf(self.pos@)
        &&& match self.drag_pos {
            Some(d) => pos_wf(d@),
            None => true,
        }
    }

    /// A press at `cursor` grabs the sling exactly when it lands within
    /// `GRAB_RADIUS` of the anchor.
    pub open spec fn can_grab(&self, cursor: Pos) -> bool {
        dist_sq(self.pos@, cursor@) < (GRAB_RADIUS as int) * (GRAB_RADIUS as int)
    }

    /// A sling anchored at `pos`, not being dragged.
    pub fn new(pos: Pos) -> (s: Sling)
        requires
            pos_wf(pos@),
        ensures
            s.pos == pos,
            s.drag_pos is None,
            s.wf(),
    {
        Sling { pos, drag_pos: None }
    }

    /// A press starts a drag exactly when it grabs the sling; a press
    /// anywhere else changes nothing.
    pub fn on_press(&mut self, cursor: Pos)
        requires
            old(self).wf(),
            pos_wf(cursor@),
        ensures
            final(self).wf(),
            final(self).pos == old(self).pos,
            final(self).drag_pos == (if old(self).can_grab(cursor) {
                Some(cursor)
            } else {
                old(self).drag_pos
            }),
    {
        let d2 = dist_sq_exec(&self.pos, &cursor);
        proof {
            assert((GRAB_RADIUS as int) * (GRAB_RADIUS as int) == 400_000_000_000_000int)
                by (nonlinear_arith);
        }
        if d2 < 400_000_000_000_000u128 {
            self.drag_pos = Some(cursor);
        }
    }

    /// While a drag is in progress the drag position follows the cursor; a
    /// move without a grab does nothing.
    pub fn on_drag(&mut self, cursor: Pos)
        requires
            old(self).wf(),
            pos_wf(cursor@),
        ensures
            final(self).wf(),
            final(self).pos == old(self).pos,
            final(self).drag_pos == (if old(self).drag_pos is Some {
                Some(cursor)
            } else {
                None::<Pos>
            }),
    {
        if self.drag_pos.is_some() {
            self.drag_pos = Some(cursor);
        }
    }

    /// Releasing ends the drag; if one was in progress, the launch velocity
    /// is the displacement from the drag position back to the anchor, scaled
    /// by `FORCE_SCALE`.
    pub fn on_release(&mut self) -> (vel: Option<Velocity>)
        requires
            old(self).wf(),
        ensures
            final(self).wf(),
            final(self).pos == old(self).pos,
            final(self).drag_pos is None,
            vel == (match old(self).drag_pos {
                Some(d) => Some(
                    Velocity {
                        x: ((FORCE_SCALE as int) * (old(self).pos.x - d.x)) as i64,
                        y: ((FORCE_SCALE as int) * (old(self).pos.y - d.y)) as i64,
                    },
                ),
                None => None::<Velocity>,
            }),
    {
        let out = match self.drag_pos {
            Some(d) => {
                proof {
                    assert(-10_000_000_000_000int <= (FORCE_SCALE as int) * ((self.pos.x as int)
                        - (d.x as int)) <= 10_000_000_000_000int) by (nonlinear_arith)
                        requires
                            -2_000_000_000_000 <= (self.pos.x as int) - (d.x as int)
                                <= 2_000_000_000_000,
                    ;
                    assert(-10_000_000_000_000int <= (FORCE_SCALE as int) * ((self.pos.y as int)
                        - (d.y as int)) <= 10_000_000_000_000int) by (nonlinear_arith)
                        requires
                            -2_000_000_000_000 <= (self.pos.y as int) - (d.y as int)
                                <= 2_000_000_000_000,
                    ;
                }
                Some(
                    Velocity {
                        x: FORCE_SCALE * (self.pos.x - d.x),
                        y: FORCE_SCALE * (self.pos.y - d.y),
                    },
                )
            },
            None => None,
        };
        self.drag_pos = None;
        out
    }

    /// Where the sling is rendered: at the drag position while dragging,
    /// else at the anchor.
    pub fn render_pos(&self) -> (p: Pos)
        ensures
            p == (match self.drag_pos {
                Some(d) => d,
                None => self.pos,
            }),
    {
        match self.drag_pos {
            Some(d) => d,
            None => self.pos,
        }
    }
}

} // verus!
