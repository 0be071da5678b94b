//! The set of laid-out element ids and the cursor the engine keeps between frames.
use std::collections::HashSet;

use vstd::prelude::*;

use crate::element::Id;

verus! {

broadcast use vstd::std_specs::hash::group_hash_axioms;

/// The `EngineState` struct keeps the ids of the elements of the last layout and the element under the cursor.
///
/// The cursor always names an element of the last layout, or nothing.
pub struct EngineState {
    element_ids: HashSet<Id>,
    cursor: Option<Id>,
}

impl EngineState {
    /// The ids of the elements of the last layout.
    pub closed spec fn element_ids_view(&self) -> Set<Id> {
        self.element_ids@
    }

    /// The element under the cursor.
    pub closed spec fn cursor_view(&self) -> Option<Id> {
        self.cursor
    }

    /// The cursor names a laid-out element or nothing.
    pub closed spec fn wf(&self) -> bool {
        self.cursor matches Some(id) ==> self.element_ids@.contains(id)
    }

    /// Creates a state that holds no laid-out element and no cursor.
    pub fn new() -> (r: Self)
        ensures
            r.wf(),
            r.element_ids_view() == Set::<Id>::empty(),
            r.cursor_view() is None,
    {
        EngineState { element_ids: HashSet::new(), cursor: None }
    }

    /// Replaces the laid-out ids, and forgets the cursor when its element is gone.
    pub fn set_element_ids(&mut self, element_ids: &[Id])
        ensures
            final(self).wf(),
            final(self).element_ids_view() == element_ids@.to_set(),
            final(self).cursor_view() == match old(self).cursor_view() {
                Some(id) => if element_ids@.contains(id) {
                    Some(id)
                } else {
                    None
                },
                None => None,
            },
    {
        self.element_ids.clear();
        let mut i: usize = 0;
        while i < element_ids.len()
            invariant
                i <= element_ids@.len(),
                self.element_ids@ == element_ids@.take(i as int).to_set(),
                self.cursor == old(self).cursor,
            decreases element_ids@.len() - i,
        {
            proof {
                assert(element_ids@.take(i + 1) =~= element_ids@.take(i as int).push(element_ids@[i as int]));
                element_ids@.take(i as int).lemma_push_to_set_commute(element_ids@[i as int]);
            }
            self.element_ids.insert(element_ids[i]);
            i = i + 1;
        }
        proof {
            assert(element_ids@.take(i as int) =~= element_ids@);
        }
        self.cursor = match self.cursor {
            Some(id) => if self.element_ids.contains(&id) {
                Some(id)
            } else {
                None
            },
            None => None,
        };
    }

    /// Reports whether the last layout held element `id`.
    pub fn contains_element(&self, id: Id) -> (r: bool)
        ensures
            r == self.element_ids_view().contains(id),
    {
        self.element_ids.contains(&id)
    }

    /// Moves the cursor to `cursor` when the last layout holds it, or clears it, and returns the new cursor.
    pub fn set_cursor(&mut self, cursor: Option<Id>) -> (r: Option<Id>)
        ensures
            final(self).wf(),
            final(self).element_ids_view() == old(self).element_ids_view(),
            r == final(self).cursor_view(),
            r == match cursor {
                Some(id) => if old(self).element_ids_view().contains(id) {
                    Some(id)
                } else {
                    None
                },
                None => None,
            },
    {
        self.cursor = match cursor {
            Some(id) => if self.element_ids.contains(&id) {
                Some(id)
            } else {
                None
            },
            None => None,
        };
        self.cursor
    }

    /// Returns the element under the cursor.
    pub fn cursor(&self) -> (r: Option<Id>)
        ensures
            r == self.cursor_view(),
    {
        self.cursor
    }
}

} // verus!
