//! The pointer drag gesture owned by the UI engine.
//!
//! The engine hit-tests the pointer and holds the surface it finds. Keep forwarding the captured pointer's motion and
//! release even outside that source. The application decides whether a [`DragDrop`] belongs to a valid target and
//! what its source means.
//!
//! Positions are whatever point type the engine measures layout in; the gesture only stores them. Whether the pointer
//! has travelled the movement threshold from the press point is measured by the caller in those units and handed in
//! with each motion.
use vstd::prelude::*;

use crate::element::Id;

verus! {

/// The `DragCapture` struct supports rendering feedback for the captured source.
///
/// Keep the source available until the application accepts a [`DragDrop`]; clearing capture then restores it after
/// cancellation or an invalid drop.
#[derive(Debug, Clone, Copy, PartialEq)]
pub struct DragCapture<P> {
    /// The retained UI source identity.
    pub source: Id,
    /// The press position.
    pub origin: P,
    /// The latest captured pointer position.
    pub position: P,
    /// Whether the pointer has crossed the movement threshold during this gesture.
    pub dragging: bool,
    /// The surface under the captured pointer other than the source, from the last evaluated frame. Read it to
    /// preview where a release would drop.
    pub over: Option<Id>,
}

/// The `DragDrop` struct supports applying a released source to a drop target.
#[derive(Debug, Clone, Copy, PartialEq)]
pub struct DragDrop<P> {
    /// The retained UI source identity.
    pub source: Id,
    /// The release position, including positions outside the UI.
    pub position: P,
}

/// The gesture after the captured pointer moved to `position`, where `crossed` tells whether that lies at least the
/// movement threshold away from the press position. Activation latches.
pub open spec fn after_move<P>(capture: Option<DragCapture<P>>, position: P, crossed: bool) -> Option<DragCapture<P>> {
    match capture {
        Some(c) => Some(DragCapture { position, dragging: c.dragging || crossed, ..c }),
        None => None,
    }
}

/// The drop a release at `position` yields: one only when the gesture was activated, by then or by this release.
pub open spec fn drop_of<P>(capture: Option<DragCapture<P>>, position: P, crossed: bool) -> Option<DragDrop<P>> {
    match after_move(capture, position, crossed) {
        Some(c) => if c.dragging {
            Some(DragDrop { source: c.source, position })
        } else {
            None
        },
        None => None,
    }
}

/// The `Drag` struct supports one captured pointer gesture. No operation allocates.
pub struct Drag<P> {
    capture: Option<DragCapture<P>>,
}

impl<P: Copy> Drag<P> {
    /// The gesture in progress, or `None` when nothing is held.
    pub closed spec fn capture_view(&self) -> Option<DragCapture<P>> {
        self.capture
    }

    /// Creates an idle gesture.
    pub fn new() -> (r: Self)
        ensures
            r.capture_view() is None,
    {
        Drag { capture: None }
    }

    /// Captures a source until release or cancellation; a held gesture refuses another.
    pub fn press(&mut self, source: Id, position: P) -> (r: bool)
        ensures
            r == old(self).capture_view() is None,
            final(self).capture_view() == if r {
                Some(DragCapture { source, origin: position, position, dragging: false, over: None })
            } else {
                old(self).capture_view()
            },
    {
        if self.capture.is_some() {
            return false;
        }
        self.capture = Some(DragCapture { source, origin: position, position, dragging: false, over: None });
        true
    }

    /// Returns the gesture in progress.
    pub fn capture(&self) -> (r: Option<DragCapture<P>>)
        ensures
            r == self.capture_view(),
    {
        self.capture
    }

    /// Records the surface under the captured pointer for the frame just evaluated.
    pub fn set_over(&mut self, over: Option<Id>)
        ensures
            final(self).capture_view() == match old(self).capture_view() {
                Some(c) => Some(DragCapture { over, ..c }),
                None => None,
            },
    {
        match self.capture {
            Some(c) => {
                self.capture = Some(DragCapture { over, ..c });
            },
            None => {},
        }
    }

    /// Updates the captured pointer and reports whether a gesture is held. `crossed` tells whether `position` lies at
    /// least the movement threshold away from the press position.
    ///
    /// Once activated, a drag stays active even if it returns to its press position, so returning over the source
    /// does not turn a drag into a click.
    pub fn move_to(&mut self, position: P, crossed: bool) -> (r: bool)
        ensures
            r == old(self).capture_view() is Some,
            final(self).capture_view() == after_move(old(self).capture_view(), position, crossed),
    {
        match self.capture {
            Some(c) => {
                self.capture = Some(DragCapture { position, dragging: c.dragging || crossed, ..c });
                true
            },
            None => false,
        }
    }

    /// Releases the captured pointer and returns a drop only after drag activation.
    ///
    /// The release position participates in threshold detection, including when no separate motion event arrived.
    /// A click clears capture without yielding a drop.
    pub fn release(&mut self, position: P, crossed: bool) -> (r: Option<DragDrop<P>>)
        ensures
            final(self).capture_view() is None,
            r == drop_of(old(self).capture_view(), position, crossed),
    {
        if !self.move_to(position, crossed) {
            return None;
        }
        let capture = self.capture.take();
        match capture {
            Some(c) => if c.dragging {
                Some(DragDrop { source: c.source, position: c.position })
            } else {
                None
            },
            None => None,
        }
    }

    /// Clears capture and returns its source without producing a drop.
    pub fn cancel(&mut self) -> (r: Option<Id>)
        ensures
            final(self).capture_view() is None,
            r == match old(self).capture_view() {
                Some(c) => Some(c.source),
                None => None,
            },
    {
        match self.capture.take() {
            Some(c) => Some(c.source),
            None => None,
        }
    }
}

/// Once a gesture crossed the threshold it stays a drag: after any further motion, even back to the press point,
/// its release yields a drop of its source, wherever it is released.
pub proof fn an_activated_drag_stays_active<P>(
    capture: DragCapture<P>,
    moved_to: P,
    crossed_on_move: bool,
    released_at: P,
    crossed_on_release: bool,
)
    requires
        capture.dragging,
    ensures
        after_move(Some(capture), moved_to, crossed_on_move) matches Some(c) && c.dragging,
        drop_of(after_move(Some(capture), moved_to, crossed_on_move), released_at, crossed_on_release) == Some(
            DragDrop { source: capture.source, position: released_at },
        ),
{
}

/// A press released without the pointer ever crossing the threshold is a click: it yields no drop.
pub proof fn a_click_yields_no_drop<P>(source: Id, pressed_at: P, moved_to: P, released_at: P)
    ensures
        drop_of(
            after_move(
                Some(DragCapture { source, origin: pressed_at, position: pressed_at, dragging: false, over: None }),
                moved_to,
                false,
            ),
            released_at,
            false,
        ) is None,
{
}

} // verus!
