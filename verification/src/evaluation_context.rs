//! The context a mounted component declares and edits its part of the tree through, and the structural changes it
//! asks of its engine.
use std::marker::PhantomData;

use vstd::prelude::*;

use crate::context::{slot_path, slot_path_of, ElementKey};
use crate::element::Id;
use crate::retained_tree::ROOT_PATH;

verus! {

/// The `ScopeId` struct identifies one mounted scope so the tasks spawned inside it end with it.
///
/// Scope paths can repeat between live mounts, so ownership uses this identity instead, which an engine never hands
/// out twice.
#[derive(Debug, Clone, Copy, PartialEq, Eq, Structural)]
pub struct ScopeId(pub u64);

impl ScopeId {
    /// The scope of the root component, which is never removed.
    pub fn root() -> (r: Self)
        ensures
            r == ScopeId(0),
    {
        ScopeId(0)
    }
}

/// The `UiCommand` enum is one structural change to the retained tree or runtime, such as a removal.
#[derive(Debug, Clone, Copy, PartialEq, Eq, Structural)]
pub enum UiCommand {
    /// Removes everything declared under `path` with the tasks declared there, or, with `owner`, the tasks that
    /// mounted scope owns instead. Two live mounts can share a path, so a mounted scope ends by its owner.
    Remove { path: u64, owner: Option<ScopeId> },
    /// Moves `child` under `parent` as its last child.
    Reparent { child: Id, parent: Id },
    /// Puts `target` on top of the focus stack, or takes it off.
    Focus { target: Id, focused: bool },
}

/// The `EvaluationContext` struct lets a mounted component declare and edit its part of the tree.
///
/// It holds no engine state, only the identifiers that place its declarations. Every change it makes is a command
/// the engine applies in the order it was made.
pub struct EvaluationContext<C> {
    /// The element this context edits, or for a component scope the element it was declared under.
    pub id: Id,
    /// The element declarations from this context attach under.
    pub parent: Option<Id>,
    /// The path slots declared from this context are keyed under; see [`slot_path`].
    pub path: u64,
    /// The mounted scope that owns tasks spawned from this context.
    pub owner: ScopeId,
    pub ctx: PhantomData<C>,
}

impl<C> EvaluationContext<C> {
    /// Makes the context that edits `id`, attaches declarations under `parent`, keys its slots under `path`, and
    /// gives the tasks it spawns to `owner`.
    pub fn new(id: Id, parent: Option<Id>, path: u64, owner: ScopeId) -> (r: Self)
        ensures
            r.id == id,
            r.parent == parent,
            r.path == path,
            r.owner == owner,
    {
        EvaluationContext { id, parent, path, owner, ctx: PhantomData }
    }

    /// Makes the context of the root component, which declares top-level elements.
    ///
    /// The root context edits no element; its id only names the root for focus and events.
    pub fn new_root() -> (r: Self)
        ensures
            r.id == 1,
            r.parent is None,
            r.path == ROOT_PATH,
            r.owner == ScopeId(0),
    {
        Self::new(1, None, ROOT_PATH, ScopeId::root())
    }

    /// Returns the id of this context's element.
    pub fn id(&self) -> (r: Id)
        ensures
            r == self.id,
    {
        self.id
    }

    /// Moves this element under another parent as its last child, keeping its id, path, and properties. An unknown
    /// parent, or a parent that is this element or one of its descendants, changes nothing when applied.
    pub fn reparent(&mut self, parent: Id) -> (r: UiCommand)
        ensures
            r == (UiCommand::Reparent { child: old(self).id, parent }),
            *final(self) == *old(self),
    {
        UiCommand::Reparent { child: self.id, parent }
    }

    /// Moves another retained element under this element as its last child, so a drop target can take in the source
    /// it was given. An unknown element, or one that is this element or one of its ancestors, changes nothing when
    /// applied.
    pub fn adopt(&mut self, child: Id) -> (r: UiCommand)
        ensures
            r == (UiCommand::Reparent { child, parent: old(self).id }),
            *final(self) == *old(self),
    {
        UiCommand::Reparent { child, parent: self.id }
    }

    /// Removes this element, everything declared under it, and the components started there.
    ///
    /// The context stays usable only to declare again: a later declaration of the same key under the same parent
    /// gets the same id.
    pub fn remove(&mut self) -> (r: UiCommand)
        ensures
            r == (UiCommand::Remove { path: old(self).path, owner: None }),
            *final(self) == *old(self),
    {
        UiCommand::Remove { path: self.path, owner: None }
    }

    /// Puts this element on top of the focus stack, so key and text input reach it.
    pub fn request_focus(&mut self) -> (r: UiCommand)
        ensures
            r == (UiCommand::Focus { target: old(self).id, focused: true }),
            *final(self) == *old(self),
    {
        UiCommand::Focus { target: self.id, focused: true }
    }

    /// Takes this element off the focus stack, returning focus to the element focused before it.
    pub fn release_focus(&mut self) -> (r: UiCommand)
        ensures
            r == (UiCommand::Focus { target: old(self).id, focused: false }),
            *final(self) == *old(self),
    {
        UiCommand::Focus { target: self.id, focused: false }
    }

    /// Returns the id the slot `key` declared from this context gets.
    pub fn slot_id(&self, key: ElementKey) -> (r: Id)
        ensures
            r == slot_path_of(self.path, key@),
            r != 0,
    {
        slot_path(self.path, key)
    }

    /// Returns the context of an element declared from this context in the slot `key`: it edits the new element,
    /// attaches further declarations under it, and keys its own slots under the element's path.
    pub fn declared(&self, key: ElementKey) -> (r: Self)
        ensures
            r.id == slot_path_of(self.path, key@),
            r.parent == Some(slot_path_of(self.path, key@)),
            r.path == slot_path_of(self.path, key@),
            r.owner == self.owner,
    {
        let id = slot_path(self.path, key);
        Self::new(id, Some(id), id, self.owner)
    }

    /// Returns the context of a component started from this context in the slot `key`: it declares under the same
    /// element as this context, and keys its slots under the slot's own path.
    pub fn component(&self, key: ElementKey) -> (r: Self)
        ensures
            r.id == self.id,
            r.parent == self.parent,
            r.path == slot_path_of(self.path, key@),
            r.owner == self.owner,
    {
        Self::new(self.id, self.parent, slot_path(self.path, key), self.owner)
    }
}

} // verus!
