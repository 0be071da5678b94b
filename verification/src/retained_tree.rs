//! The retained tree of live UI elements and the topology layout walks.
//!
//! Components write to it while their task is polled. Element ids are computed by the contexts (see
//! [`crate::context::ElementKey`]), so the tree only records what it needs to follow declaration ancestry and to
//! keep a compact render order. The element payload `P` is whatever the engine stores per element; the tree never
//! reads it.
use std::collections::{HashMap, HashSet};

use vstd::prelude::*;

use crate::element::Id;

verus! {

broadcast use vstd::std_specs::hash::group_hash_axioms;

/// The path of the root context. Nothing is declared above it, so it can never be removed.
pub const ROOT_PATH: u64 = 0;

/// The `IdedElement` struct pairs one live element with its identity, render order, and last edit.
pub struct IdedElement<P> {
    pub id: Id,
    pub element: P,
    /// The compact render order of the id. A remounted element keeps its serial.
    pub serial: u32,
    /// The tree revision of the last change to this element.
    pub revision: u64,
}

/// The `Revisions` struct holds the counters consumers compare to keep derived state.
#[derive(Clone, Copy, Debug, PartialEq, Eq)]
pub struct Revisions {
    /// Advances on every structural or property change.
    pub revision: u64,
    /// Advances when a mutation may change element positions, sizes, or hit participation.
    pub placement: u64,
    /// Custom flows may observe external state after edits other than visual transforms.
    pub non_transform: u64,
    /// Advances when the set of flow types may change.
    pub flow: u64,
    /// Structural edits also invalidate clipping, including remounts that reuse ids.
    pub clip: u64,
    /// Clipping and inherited opacity can change independently of paint color.
    pub appearance: u64,
}

/// What an edit of one element changed, compared before and after the edit by the owner of the payload.
#[derive(Clone, Copy, Debug, PartialEq, Eq)]
pub struct ElementChange {
    /// The properties could be compared and every compared input, style, content, and transform is unchanged.
    pub unchanged: bool,
    pub transform_changed: bool,
    pub flow_changed: bool,
    pub placement_changed: bool,
    /// The text content or font size changed.
    pub text_changed: bool,
    /// Clip inputs changed, or the element is a hit-testable curve.
    pub clip_changed: bool,
    pub opacity_changed: bool,
}

/// Every counter set to `r`.
/// The `ReparentRefusal` enum says why a move of an element under another parent was refused.
#[derive(Clone, Copy, Debug, PartialEq, Eq, Structural)]
pub enum ReparentRefusal {
    /// The element or its new parent is not in the tree, most likely because it was removed before the move.
    Missing,
    /// The new parent is the element itself or one of its descendants.
    UnderItself,
}

pub open spec fn all_revisions(r: u64) -> Revisions {
    Revisions { revision: r, placement: r, non_transform: r, flow: r, clip: r, appearance: r }
}

/// Whether following declaration links from `path` reaches `ancestor` within `fuel` links.
///
/// A link leads from a declared path to the path it was declared in; the root path has none.
pub open spec fn declared_under_within(
    declarations: Map<u64, u64>,
    path: u64,
    ancestor: u64,
    fuel: nat,
) -> bool
    decreases fuel,
{
    if path == ancestor {
        true
    } else if fuel == 0 {
        false
    } else if declarations.contains_key(path) && path != ROOT_PATH {
        declared_under_within(declarations, declarations[path], ancestor, (fuel - 1) as nat)
    } else {
        false
    }
}

/// Whether `path` is `ancestor` or was declared somewhere under it.
///
/// The walk is bounded by the number of declarations plus one, which a chain of distinct paths never exceeds.
pub open spec fn declared_under(declarations: Map<u64, u64>, path: u64, ancestor: u64) -> bool {
    declared_under_within(declarations, path, ancestor, declarations.len() + 1)
}

/// The children recorded under `parent`, in the order their relations were made.
pub open spec fn child_ids(relations: Seq<(Id, Id)>, parent: Id) -> Seq<Id>
    decreases relations.len(),
{
    if relations.len() == 0 {
        Seq::empty()
    } else {
        let rest = child_ids(relations.drop_last(), parent);
        if relations.last().0 == parent {
            rest.push(relations.last().1)
        } else {
            rest
        }
    }
}

/// `relations` without the relation that records `child`.
pub open spec fn without_child(relations: Seq<(Id, Id)>, child: Id) -> Seq<(Id, Id)>
    decreases relations.len(),
{
    if relations.len() == 0 {
        Seq::empty()
    } else {
        let rest = without_child(relations.drop_last(), child);
        if relations.last().1 == child {
            rest
        } else {
            rest.push(relations.last())
        }
    }
}

/// `ids` without every occurrence of `id`.
pub open spec fn without_id(ids: Seq<Id>, id: Id) -> Seq<Id>
    decreases ids.len(),
{
    if ids.len() == 0 {
        Seq::empty()
    } else {
        let rest = without_id(ids.drop_last(), id);
        if ids.last() == id {
            rest
        } else {
            rest.push(ids.last())
        }
    }
}

/// The elements that a removal of `scope` keeps: those not declared under it.
pub open spec fn kept_elements<P>(elements: Seq<IdedElement<P>>, declarations: Map<u64, u64>, scope: u64) -> Seq<
    IdedElement<P>,
>
    decreases elements.len(),
{
    if elements.len() == 0 {
        Seq::empty()
    } else {
        let rest = kept_elements(elements.drop_last(), declarations, scope);
        if declared_under(declarations, elements.last().id, scope) {
            rest
        } else {
            rest.push(elements.last())
        }
    }
}

/// The relations whose two ends both lie outside `removed`.
pub open spec fn kept_relations(relations: Seq<(Id, Id)>, removed: Set<Id>) -> Seq<(Id, Id)>
    decreases relations.len(),
{
    if relations.len() == 0 {
        Seq::empty()
    } else {
        let rest = kept_relations(relations.drop_last(), removed);
        let last = relations.last();
        if removed.contains(last.0) || removed.contains(last.1) {
            rest
        } else {
            rest.push(last)
        }
    }
}

/// Whether the element at index `i` is the element at `a` or lies below it, following `parents`.
pub open spec fn index_under(parents: Seq<Option<usize>>, depths: Seq<nat>, i: int, a: int) -> bool
    decreases depths[i],
{
    if i == a {
        true
    } else {
        match parents[i] {
            Some(p) => if depths[p as int] < depths[i] {
                index_under(parents, depths, p as int, a)
            } else {
                false
            },
            None => false,
        }
    }
}

/// The `RetainedTree` struct owns the live UI elements and the topology layout walks.
pub struct RetainedTree<P> {
    elements: Vec<IdedElement<P>>,
    element_indices: HashMap<Id, usize>,
    relations: Vec<(Id, Id)>,
    /// Dense links follow `elements`. Spare child lists keep their capacity after a scope closes.
    children: Vec<Vec<usize>>,
    parents: Vec<Option<usize>>,
    /// The path each declared element or component scope was declared in, by its own path.
    ///
    /// Scope removal follows these links, so a visually reparented element still belongs to the context that
    /// declared it. Entries outlive their elements so a context can declare again after a removal.
    declarations: HashMap<u64, u64>,
    /// Elements created in the current frame, to detect a key declared twice under the same parent.
    declared: HashSet<Id>,
    /// The compact render order of every id this tree has held.
    serials: HashMap<Id, u32>,
    next_serial: u32,
    /// The last id given to an element's contents; see [`Self::add_element`].
    next_content_id: u64,
    /// The ids the last scope removal took out.
    removed: HashSet<Id>,
    revisions: Revisions,
    /// Roots whose visual transforms changed since the last evaluation.
    transform_changes: Vec<usize>,
    /// Text edits need a size comparison before placement can be reused.
    text_changes: Vec<usize>,
    /// A depth for every element that decreases towards the root, which keeps the parent links acyclic.
    depths: Ghost<Seq<nat>>,
}

impl<P> RetainedTree<P> {
    /// The identities of the live elements, in tree order.
    pub closed spec fn ids(&self) -> Seq<Id> {
        self.elements@.map_values(|e: IdedElement<P>| e.id)
    }

    /// The live elements, in tree order.
    pub closed spec fn elements_view(&self) -> Seq<IdedElement<P>> {
        self.elements@
    }

    /// The tree holds no more elements than an index can count.
    pub proof fn lemma_elements_fit(&self)
        ensures
            self.elements_view().len() <= usize::MAX,
    {
        assert(self.elements.len() == self.elements@.len());
    }

    /// The recorded `(parent, child)` relations, in the order they were made.
    pub closed spec fn relations_view(&self) -> Seq<(Id, Id)> {
        self.relations@
    }

    /// The declaration links, from each declared path to the path it was declared in.
    pub closed spec fn declarations_view(&self) -> Map<u64, u64> {
        self.declarations@
    }

    /// The ids declared in the current frame.
    pub closed spec fn declared_view(&self) -> Set<Id> {
        self.declared@
    }

    /// The ids the last scope removal took out.
    pub closed spec fn removed_view(&self) -> Set<Id> {
        self.removed@
    }

    pub closed spec fn revisions_view(&self) -> Revisions {
        self.revisions
    }

    pub closed spec fn next_content_id_view(&self) -> u64 {
        self.next_content_id
    }

    pub closed spec fn serials_view(&self) -> Map<Id, u32> {
        self.serials@
    }

    pub closed spec fn next_serial_view(&self) -> u32 {
        self.next_serial
    }

    pub closed spec fn transform_changes_view(&self) -> Seq<usize> {
        self.transform_changes@
    }

    pub closed spec fn text_changes_view(&self) -> Seq<usize> {
        self.text_changes@
    }

    /// Whether the tree holds an element `id`.
    pub open spec fn contains(&self, id: Id) -> bool {
        self.ids().contains(id)
    }

    /// The index of the element `id`.
    pub closed spec fn index_of_id(&self, id: Id) -> int {
        self.element_indices@[id] as int
    }

    /// The parent index of the element at `index`, or `None` for a root.
    pub closed spec fn parent_index(&self, index: int) -> Option<usize> {
        self.parents@[index]
    }

    /// The indices of the children of the element at `index`, in order.
    pub closed spec fn child_indices(&self, index: int) -> Seq<usize> {
        self.children@[index]@
    }

    /// Whether the element at index `i` is the element at index `a` or one of its descendants.
    pub closed spec fn is_under(&self, i: int, a: int) -> bool {
        index_under(self.parents@, self.depths@, i, a)
    }

    /// Why a move of `child` under `parent` is refused, or `None` when it is not: one of them is not in the tree, or
    /// `parent` is `child` itself or one of its descendants.
    pub open spec fn reparent_refusal(&self, child: Id, parent: Id) -> Option<ReparentRefusal> {
        if !self.contains(child) || !self.contains(parent) {
            Some(ReparentRefusal::Missing)
        } else if self.is_under(self.index_of_id(parent), self.index_of_id(child)) {
            Some(ReparentRefusal::UnderItself)
        } else {
            None
        }
    }

    /// The recorded parent of `id`, or `None` when it is a root or absent.
    pub open spec fn parent_of(&self, id: Id) -> Option<Id> {
        if self.contains(id) {
            match self.parent_index(self.index_of_id(id)) {
                Some(p) => Some(self.ids()[p as int]),
                None => None,
            }
        } else {
            None
        }
    }

    /// The well-formedness of the tree: indices, relations, parent and child links agree, and links are acyclic.
    pub closed spec fn wf(&self) -> bool {
        let els = self.elements@;
        let len = els.len();
        let rel = self.relations@;
        let idx = self.element_indices@;
        &&& self.parents@.len() == len
        &&& self.depths@.len() == len
        &&& self.children@.len() >= len
        &&& forall|i: int, j: int| 0 <= i < j < len ==> (#[trigger] els[i]).id != (#[trigger] els[j]).id
        &&& forall|i: int| 0 <= i < len ==> idx.contains_key((#[trigger] els[i]).id) && idx[els[i].id] == i
        &&& forall|k: Id| #[trigger] idx.contains_key(k) ==> idx[k] < len && els[idx[k] as int].id == k
        &&& forall|a: int|
            0 <= a < rel.len() ==> idx.contains_key((#[trigger] rel[a]).0) && idx.contains_key(rel[a].1)
        &&& forall|a: int, b: int| 0 <= a < b < rel.len() ==> (#[trigger] rel[a]).1 != (#[trigger] rel[b]).1
        &&& forall|i: int|
            0 <= i < len ==> match #[trigger] self.parents@[i] {
                Some(p) => p < len && self.depths@[p as int] < self.depths@[i] && rel.contains(
                    (els[p as int].id, els[i].id),
                ),
                None => forall|a: int| 0 <= a < rel.len() ==> rel[a].1 != els[i].id,
            }
        &&& forall|i: int|
            0 <= i < len ==> (#[trigger] self.children@[i])@.len() == child_ids(rel, els[i].id).len()
                && forall|k: int|
                0 <= k < self.children@[i]@.len() ==> (#[trigger] self.children@[i]@[k]) < len
                    && els[self.children@[i]@[k] as int].id == child_ids(rel, els[i].id)[k]
        &&& forall|i: int| len <= i < self.children@.len() ==> (#[trigger] self.children@[i])@.len() == 0
    }
}


/// Reports whether `path` is `ancestor` or was declared somewhere under it, following `declarations`.
fn is_declared_under(declarations: &HashMap<u64, u64>, path: u64, ancestor: u64) -> (r: bool)
    ensures
        r == declared_under(declarations@, path, ancestor),
{
    let mut current = path;
    // The walk may take one link per declaration and then must have ended.
    let mut remaining: usize = declarations.len();
    loop
        invariant
            declared_under(declarations@, path, ancestor) == declared_under_within(
                declarations@,
                current,
                ancestor,
                (remaining + 1) as nat,
            ),
        decreases remaining,
    {
        if current == ancestor {
            return true;
        }
        if current == ROOT_PATH {
            return false;
        }
        match declarations.get(&current) {
            Some(declared_in) => {
                current = *declared_in;
            },
            None => {
                return false;
            },
        }
        if remaining == 0 {
            proof {
                reveal_with_fuel(declared_under_within, 2);
            }
            return current == ancestor;
        }
        remaining = remaining - 1;
    }
}

impl<P> RetainedTree<P> {
    /// Creates an empty tree.
    pub fn new() -> (tree: Self)
        ensures
            tree.wf(),
            tree.ids() == Seq::<Id>::empty(),
            tree.relations_view() == Seq::<(Id, Id)>::empty(),
            tree.declarations_view() == Map::<u64, u64>::empty(),
            tree.declared_view() == Set::<Id>::empty(),
            tree.removed_view() == Set::<Id>::empty(),
            tree.revisions_view() == all_revisions(0),
            tree.next_content_id_view() == 0,
            tree.next_serial_view() == 0,
            tree.serials_view() == Map::<Id, u32>::empty(),
            tree.transform_changes_view() == Seq::<usize>::empty(),
            tree.text_changes_view() == Seq::<usize>::empty(),
    {
        let tree = RetainedTree {
            elements: Vec::new(),
            element_indices: HashMap::new(),
            relations: Vec::new(),
            children: Vec::new(),
            parents: Vec::new(),
            declarations: HashMap::new(),
            declared: HashSet::new(),
            serials: HashMap::new(),
            next_serial: 0,
            next_content_id: 0,
            removed: HashSet::new(),
            revisions: Revisions { revision: 0, placement: 0, non_transform: 0, flow: 0, clip: 0, appearance: 0 },
            transform_changes: Vec::new(),
            text_changes: Vec::new(),
            depths: Ghost(Seq::empty()),
        };
        assert(tree.ids() =~= Seq::<Id>::empty());
        tree
    }

    /// Starts a frame: keys declared from now on may repeat those of the previous frame.
    pub fn begin_frame(&mut self)
        requires
            old(self).wf(),
        ensures
            final(self).wf(),
            final(self).declared_view() == Set::<Id>::empty(),
            final(self).elements_view() == old(self).elements_view(),
            final(self).relations_view() == old(self).relations_view(),
            final(self).declarations_view() == old(self).declarations_view(),
            final(self).revisions_view() == old(self).revisions_view(),
    {
        self.declared.clear();
    }

    /// Returns a value that changes whenever elements are added, removed, or mutated.
    pub fn revision(&self) -> (r: u64)
        ensures
            r == self.revisions_view().revision,
    {
        self.revisions.revision
    }

    /// Returns every revision counter.
    pub fn revisions(&self) -> (r: Revisions)
        ensures
            r == self.revisions_view(),
    {
        self.revisions
    }

    /// Records that the component scope `path` was declared in `declared_in`, so removing an ancestor ends it.
    pub fn declare_scope(&mut self, path: u64, declared_in: u64)
        requires
            old(self).wf(),
        ensures
            final(self).wf(),
            final(self).declarations_view() == old(self).declarations_view().insert(path, declared_in),
            final(self).elements_view() == old(self).elements_view(),
            final(self).relations_view() == old(self).relations_view(),
            final(self).declared_view() == old(self).declared_view(),
            final(self).revisions_view() == old(self).revisions_view(),
    {
        self.declarations.insert(path, declared_in);
    }

    /// Reports whether `path` is `ancestor` or was declared somewhere under it.
    ///
    /// Declaration ancestry is what scope removal follows, so a visually reparented element still belongs to the
    /// context that declared it.
    pub fn path_is_under(&self, path: u64, ancestor: u64) -> (r: bool)
        ensures
            r == declared_under(self.declarations_view(), path, ancestor),
    {
        is_declared_under(&self.declarations, path, ancestor)
    }
}

/// Adding a relation extends the child list of its parent only.
proof fn lemma_child_ids_push(relations: Seq<(Id, Id)>, relation: (Id, Id), parent: Id)
    ensures
        child_ids(relations.push(relation), parent) == if relation.0 == parent {
            child_ids(relations, parent).push(relation.1)
        } else {
            child_ids(relations, parent)
        },
{
    assert(relations.push(relation).drop_last() =~= relations);
}

/// A parent that no relation names has no children.
proof fn lemma_child_ids_absent(relations: Seq<(Id, Id)>, parent: Id)
    requires
        forall|a: int| 0 <= a < relations.len() ==> (#[trigger] relations[a]).0 != parent,
    ensures
        child_ids(relations, parent) == Seq::<Id>::empty(),
    decreases relations.len(),
{
    if relations.len() > 0 {
        let rest = relations.drop_last();
        assert forall|a: int| 0 <= a < rest.len() implies (#[trigger] rest[a]).0 != parent by {
            assert(rest[a] == relations[a]);
        }
        lemma_child_ids_absent(rest, parent);
    }
}

/// Every recorded child of `parent` has a relation from `parent`.
proof fn lemma_child_ids_related(relations: Seq<(Id, Id)>, parent: Id, k: int)
    requires
        0 <= k < child_ids(relations, parent).len(),
    ensures
        relations.contains((parent, child_ids(relations, parent)[k])),
    decreases relations.len(),
{
    let rest = relations.drop_last();
    let prev = child_ids(rest, parent);
    if k < prev.len() {
        lemma_child_ids_related(rest, parent, k);
        let a = choose|a: int| 0 <= a < rest.len() && rest[a] == (parent, prev[k]);
        assert(relations[a] == rest[a]);
    } else {
        assert(relations[relations.len() - 1] == relations.last());
    }
}

impl<P> RetainedTree<P> {
    /// Returns the number of live elements.
    pub fn len(&self) -> (r: usize)
        ensures
            r == self.elements_view().len(),
    {
        self.elements.len()
    }

    /// Returns the live elements, in tree order.
    pub fn elements(&self) -> (r: &[IdedElement<P>])
        ensures
            r@ == self.elements_view(),
    {
        self.elements.as_slice()
    }

    /// Returns the recorded `(parent, child)` relations, in the order they were made.
    pub fn relations(&self) -> (r: &[(Id, Id)])
        ensures
            r@ == self.relations_view(),
    {
        self.relations.as_slice()
    }

    /// Returns the indices of the children of the element at `index`, in order.
    pub fn children_of(&self, index: usize) -> (r: &[usize])
        requires
            self.wf(),
            index < self.elements_view().len(),
        ensures
            r@ == self.child_indices(index as int),
            r@.len() == child_ids(self.relations_view(), self.ids()[index as int]).len(),
            forall|k: int|
                0 <= k < r@.len() ==> r@[k] < self.elements_view().len() && self.ids()[r@[k] as int]
                    == child_ids(self.relations_view(), self.ids()[index as int])[k],
    {
        proof {
            assert(self.children@[index as int]@.len() == child_ids(self.relations@, self.elements@[index as int].id).len());
        }
        self.children[index].as_slice()
    }

    /// Returns the index of the parent of the element at `index`, or `None` for a root.
    pub fn parent_index_of(&self, index: usize) -> (r: Option<usize>)
        requires
            self.wf(),
            index < self.elements_view().len(),
        ensures
            r == self.parent_index(index as int),
            match r {
                Some(p) => p < self.elements_view().len() && self.relations_view().contains(
                    (self.ids()[p as int], self.ids()[index as int]),
                ),
                None => forall|a: int|
                    0 <= a < self.relations_view().len() ==> self.relations_view()[a].1 != self.ids()[index as int],
            },
    {
        proof {
            let _ = self.parents@[index as int];
        }
        self.parents[index]
    }

    /// Returns the index of the element `id`, or `None` when the tree holds none.
    pub fn element_index(&self, id: Id) -> (r: Option<usize>)
        requires
            self.wf(),
        ensures
            match r {
                Some(i) => i < self.elements_view().len() && self.ids()[i as int] == id && i == self.index_of_id(id),
                None => !self.contains(id),
            },
    {
        match self.element_indices.get(&id) {
            Some(index) => Some(*index),
            None => {
                proof {
                    if self.contains(id) {
                        let i = choose|i: int| 0 <= i < self.ids().len() && self.ids()[i] == id;
                        assert(self.elements@[i].id == id);
                    }
                }
                None
            },
        }
    }

    /// Returns the element `id`, or `None` when the tree holds none.
    pub fn element(&self, id: Id) -> (r: Option<&IdedElement<P>>)
        requires
            self.wf(),
        ensures
            match r {
                Some(e) => self.contains(id) && *e == self.elements_view()[self.index_of_id(id)] && e.id == id,
                None => !self.contains(id),
            },
    {
        match self.element_index(id) {
            Some(index) => Some(&self.elements[index]),
            None => None,
        }
    }

    /// Resolves an element laid out from this tree to its tree index without hashing.
    ///
    /// A layout older than a structural edit can carry a stale index, so the carried index is trusted only when the
    /// element there still has the same id.
    pub fn index_of(&self, index: usize, id: Id) -> (r: Option<usize>)
        requires
            self.wf(),
        ensures
            match r {
                Some(i) => i < self.elements_view().len() && self.ids()[i as int] == id,
                None => !self.contains(id),
            },
            index < self.elements_view().len() && self.ids()[index as int] == id ==> r == Some(index),
    {
        if index < self.elements.len() && self.elements[index].id == id {
            Some(index)
        } else {
            self.element_index(id)
        }
    }
}


impl<P> RetainedTree<P> {
    /// Adds a declaration once and connects it to the retained layout topology.
    ///
    /// A declaration of an id the tree already holds keeps the existing element and its properties. Declaring the
    /// same id twice in one frame, or under a parent the tree does not hold, is refused and changes nothing.
    ///
    /// `create` builds the element from a fresh content id and runs only when the declaration creates it. Returns the
    /// index of the new element.
    pub fn add_element(&mut self, parent: Option<Id>, declared_in: u64, id: Id, create: impl FnOnce(u64) -> P) -> (r:
        Option<usize>)
        requires
            old(self).wf(),
            old(self).revisions_view().revision < u64::MAX,
            old(self).next_content_id_view() < u64::MAX,
            old(self).next_serial_view() < u32::MAX,
            create.requires(((old(self).next_content_id_view() + 1) as u64,)),
        ensures
            final(self).wf(),
            ({
                let parent_missing = parent matches Some(p) && !old(self).contains(p);
                let duplicate = old(self).declared_view().contains(id);
                let exists = old(self).contains(id);
                let new_serial = if old(self).serials_view().contains_key(id) {
                    old(self).serials_view()[id]
                } else {
                    (old(self).next_serial_view() + 1) as u32
                };
                if parent_missing || duplicate {
                    &&& r is None
                    &&& final(self).declared_view() == old(self).declared_view()
                    &&& final(self).declarations_view() == old(self).declarations_view()
                } else {
                    &&& final(self).declared_view() == old(self).declared_view().insert(id)
                    &&& final(self).declarations_view() == old(self).declarations_view().insert(id, declared_in)
                    &&& if exists {
                        &&& r is None
                        &&& final(self).elements_view() == old(self).elements_view()
                        &&& final(self).relations_view() == old(self).relations_view()
                        &&& final(self).revisions_view() == old(self).revisions_view()
                        &&& final(self).next_content_id_view() == old(self).next_content_id_view()
                    } else {
                        let content_id = (old(self).next_content_id_view() + 1) as u64;
                        let revision = (old(self).revisions_view().revision + 1) as u64;
                        &&& r == Some(old(self).elements_view().len() as usize)
                        &&& final(self).elements_view().len() == old(self).elements_view().len() + 1
                        &&& final(self).elements_view().drop_last() == old(self).elements_view()
                        &&& final(self).elements_view().last().id == id
                        &&& final(self).elements_view().last().serial == new_serial
                        &&& final(self).elements_view().last().revision == revision
                        &&& create.ensures((content_id,), final(self).elements_view().last().element)
                        &&& final(self).relations_view() == match parent {
                            Some(p) => old(self).relations_view().push((p, id)),
                            None => old(self).relations_view(),
                        }
                        &&& final(self).revisions_view() == all_revisions(revision)
                        &&& final(self).next_content_id_view() == content_id
                        &&& final(self).serials_view() == old(self).serials_view().insert(id, new_serial)
                    }
                }
            }),
            r is None ==> final(self).elements_view() == old(self).elements_view()
                && final(self).relations_view() == old(self).relations_view()
                && final(self).revisions_view() == old(self).revisions_view()
                && final(self).next_content_id_view() == old(self).next_content_id_view(),
    {
        let parent_index = match parent {
            Some(parent) => match self.element_indices.get(&parent) {
                Some(index) => Some(*index),
                None => {
                    proof {
                        if old(self).contains(parent) {
                            let i = choose|i: int| 0 <= i < self.ids().len() && self.ids()[i] == parent;
                            assert(self.elements@[i].id == parent);
                        }
                    }
                    // Writes from one task land in order, so this parent was removed before its child was declared.
                    return None;
                },
            },
            None => None,
        };
        proof {
            if let Some(p) = parent {
                assert(self.elements@[parent_index.unwrap() as int].id == p);
                assert(self.ids()[parent_index.unwrap() as int] == p);
            }
        }
        if self.declared.contains(&id) {
            // A key declared twice under the same parent in one frame: give each sibling a distinct key.
            return None;
        }
        self.declared.insert(id);
        self.declarations.insert(id, declared_in);
        if self.element_indices.contains_key(&id) {
            proof {
                assert(self.elements@[self.element_indices@[id] as int].id == id);
                assert(self.ids()[self.element_indices@[id] as int] == id);
            }
            return None;
        }
        proof {
            if old(self).contains(id) {
                let i = choose|i: int| 0 <= i < self.ids().len() && self.ids()[i] == id;
                assert(self.elements@[i].id == id);
            }
        }
        let ghost old_els = self.elements@;
        let ghost rel = self.relations@;
        let index = self.elements.len();
        self.element_indices.insert(id, index);
        let serial = match self.serials.get(&id) {
            Some(serial) => *serial,
            None => {
                self.next_serial = self.next_serial + 1;
                self.serials.insert(id, self.next_serial);
                self.next_serial
            },
        };
        let revision = self.revisions.revision + 1;
        self.revisions = Revisions {
            revision,
            placement: revision,
            non_transform: revision,
            flow: revision,
            clip: revision,
            appearance: revision,
        };
        self.next_content_id = self.next_content_id + 1;
        let element = create(self.next_content_id);
        self.elements.push(IdedElement { id, element, serial, revision });
        self.parents.push(parent_index);
        if index == self.children.len() {
            self.children.push(Vec::new());
        }
        proof {
            let d = match parent_index {
                Some(pi) => self.depths@[pi as int] + 1,
                None => 0nat,
            };
            self.depths@ = self.depths@.push(d);
            // The new id is in no relation yet.
            assert forall|a: int| 0 <= a < rel.len() implies (#[trigger] rel[a]).0 != id && rel[a].1 != id by {
                assert(old(self).element_indices@.contains_key(rel[a].0));
                assert(old(self).element_indices@.contains_key(rel[a].1));
            }
            lemma_child_ids_absent(rel, id);
        }
        match parent_index {
            Some(pi) => {
                let parent_id = self.elements[pi].id;
                self.relations.push((parent_id, id));
                let mut list = Vec::new();
                std::mem::swap(&mut list, &mut self.children[pi]);
                list.push(index);
                std::mem::swap(&mut list, &mut self.children[pi]);
            },
            None => {},
        }
        proof {
            let els = self.elements@;
            let len = els.len();
            let nrel = self.relations@;
            assert(els.drop_last() =~= old_els);
            assert forall|i: int| 0 <= i < len - 1 implies els[i] == old_els[i] by {}
            assert forall|x: Id| #![auto] true implies child_ids(nrel, x) == (match parent {
                Some(p) => if x == p { child_ids(rel, x).push(id) } else { child_ids(rel, x) },
                None => child_ids(rel, x),
            }) by {
                if let Some(p) = parent {
                    lemma_child_ids_push(rel, (p, id), x);
                }
            }
            assert forall|k: Id| #[trigger] self.element_indices@.contains_key(k) implies self.element_indices@[k]
                < len && els[self.element_indices@[k] as int].id == k by {
                if k != id {
                    assert(old(self).element_indices@.contains_key(k));
                }
            }
            assert forall|i: int| 0 <= i < len implies match #[trigger] self.parents@[i] {
                Some(p) => p < len && self.depths@[p as int] < self.depths@[i] && nrel.contains(
                    (els[p as int].id, els[i].id),
                ),
                None => forall|a: int| 0 <= a < nrel.len() ==> nrel[a].1 != els[i].id,
            } by {
                if i < len - 1 {
                    let _ = old(self).parents@[i];
                    if let Some(p) = self.parents@[i] {
                        let a = choose|a: int| 0 <= a < rel.len() && rel[a] == (els[p as int].id, els[i].id);
                        assert(nrel[a] == rel[a]);
                    } else {
                        assert forall|a: int| 0 <= a < nrel.len() implies nrel[a].1 != els[i].id by {
                            if a < rel.len() as int {
                                assert(nrel[a] == rel[a]);
                            }
                        }
                    }
                } else {
                    if let Some(p) = self.parents@[i] {
                        assert(nrel[nrel.len() - 1] == (els[p as int].id, els[i].id));
                    }
                }
            }
            assert forall|a: int, b: int| 0 <= a < b < nrel.len() implies (#[trigger] nrel[a]).1
                != (#[trigger] nrel[b]).1 by {
                if b < rel.len() {
                    assert(nrel[a] == rel[a] && nrel[b] == rel[b]);
                } else {
                    assert(nrel[a] == rel[a]);
                }
            }
            assert forall|a: int| 0 <= a < nrel.len() implies self.element_indices@.contains_key(
                (#[trigger] nrel[a]).0,
            ) && self.element_indices@.contains_key(nrel[a].1) by {
                if a < rel.len() {
                    assert(nrel[a] == rel[a]);
                    assert(old(self).element_indices@.contains_key(rel[a].0));
                    assert(old(self).element_indices@.contains_key(rel[a].1));
                }
            }
            assert forall|i: int| 0 <= i < len implies (#[trigger] self.children@[i])@.len() == child_ids(
                nrel,
                els[i].id,
            ).len() && forall|k: int|
                0 <= k < self.children@[i]@.len() ==> (#[trigger] self.children@[i]@[k]) < len
                    && els[self.children@[i]@[k] as int].id == child_ids(nrel, els[i].id)[k] by {
                if i < len - 1 {
                    let _ = old(self).children@[i];
                    assert(els[i] == old_els[i]);
                    if parent_index == Some(i as usize) {
                        assert(els[i].id == parent.unwrap());
                    } else if let Some(p) = parent {
                        assert(els[i].id != p);
                    }
                } else {
                    let _ = old(self).children@[i];
                }
            }
            assert(self.wf());
        }
        Some(index)
    }
}


/// Removing a child's relations removes it from every child list.
proof fn lemma_child_ids_without(relations: Seq<(Id, Id)>, child: Id, parent: Id)
    ensures
        child_ids(without_child(relations, child), parent) == without_id(child_ids(relations, parent), child),
    decreases relations.len(),
{
    if relations.len() > 0 {
        let rest = relations.drop_last();
        let last = relations.last();
        lemma_child_ids_without(rest, child, parent);
        if last.1 != child {
            lemma_child_ids_push(without_child(rest, child), last, parent);
        }
        if last.0 == parent {
            assert(child_ids(rest, parent).push(last.1).drop_last() =~= child_ids(rest, parent));
        }
    }
}

/// Removing an id a sequence does not hold leaves it unchanged.
pub(crate) proof fn lemma_without_id_absent(ids: Seq<Id>, id: Id)
    requires
        !ids.contains(id),
    ensures
        without_id(ids, id) == ids,
    decreases ids.len(),
{
    if ids.len() > 0 {
        let rest = ids.drop_last();
        assert(!rest.contains(id)) by {
            if rest.contains(id) {
                let k = choose|k: int| 0 <= k < rest.len() && rest[k] == id;
                assert(ids[k] == id);
            }
        }
        lemma_without_id_absent(rest, id);
        assert(ids[ids.len() - 1] == ids.last());
        assert(rest.push(ids.last()) =~= ids);
    }
}

/// `without_child` keeps exactly the relations of other children, and their children stay distinct.
proof fn lemma_without_child(relations: Seq<(Id, Id)>, child: Id)
    requires
        forall|a: int, b: int| 0 <= a < b < relations.len() ==> (#[trigger] relations[a]).1 != (#[trigger] relations[b]).1,
    ensures
        forall|a: int| 0 <= a < without_child(relations, child).len() ==> (#[trigger] without_child(relations, child)[a]).1
            != child && relations.contains(without_child(relations, child)[a]),
        forall|a: int| 0 <= a < relations.len() && (#[trigger] relations[a]).1 != child ==> without_child(relations, child).contains(relations[a]),
        forall|a: int, b: int|
            0 <= a < b < without_child(relations, child).len() ==> (#[trigger] without_child(relations, child)[a]).1
                != (#[trigger] without_child(relations, child)[b]).1,
    decreases relations.len(),
{
    if relations.len() > 0 {
        let rest = relations.drop_last();
        let last = relations.last();
        let w = without_child(rest, child);
        let wc = without_child(relations, child);
        assert forall|a: int, b: int| 0 <= a < b < rest.len() implies (#[trigger] rest[a]).1 != (#[trigger] rest[b]).1 by {
            assert(rest[a] == relations[a] && rest[b] == relations[b]);
        }
        lemma_without_child(rest, child);
        assert forall|a: int| 0 <= a < wc.len() implies (#[trigger] wc[a]).1 != child && relations.contains(wc[a]) by {
            if a < w.len() {
                assert(wc[a] == w[a]);
                let b = choose|b: int| 0 <= b < rest.len() && rest[b] == w[a];
                assert(relations[b] == rest[b]);
            } else {
                assert(relations[relations.len() - 1] == last);
            }
        }
        assert forall|a: int| 0 <= a < relations.len() && (#[trigger] relations[a]).1 != child implies wc.contains(relations[a]) by {
            if a < rest.len() {
                assert(rest[a] == relations[a]);
                let b = choose|b: int| 0 <= b < w.len() && w[b] == rest[a];
                assert(wc[b] == w[b]);
            } else {
                assert(wc[wc.len() - 1] == last);
            }
        }
        assert forall|a: int, b: int| 0 <= a < b < wc.len() implies (#[trigger] wc[a]).1 != (#[trigger] wc[b]).1 by {
            if b < w.len() {
                assert(wc[a] == w[a] && wc[b] == w[b]);
            } else {
                assert(wc[a] == w[a]);
                let c = choose|c: int| 0 <= c < rest.len() && rest[c] == w[a];
                assert(relations[c] == rest[c]);
                assert(relations[relations.len() - 1] == last);
            }
        }
    }
}

/// Following parents from a descendant never reaches a smaller depth than its ancestor's.
proof fn lemma_under_depth(parents: Seq<Option<usize>>, depths: Seq<nat>, i: int, a: int)
    requires
        index_under(parents, depths, i, a),
    ensures
        depths[i] >= depths[a],
    decreases depths[i],
{
    if i != a {
        let p = parents[i].unwrap() as int;
        lemma_under_depth(parents, depths, p, a);
    }
}

impl<P> RetainedTree<P> {
    /// Moves an element under another parent as its last child.
    ///
    /// The element keeps its id, declaration path, and properties. An unknown id, or a `parent` that is the element
    /// itself or one of its descendants, is refused and changes nothing. Moving an element under its current parent
    /// changes nothing.
    pub fn reparent(&mut self, child: Id, parent: Id) -> (refusal: Option<ReparentRefusal>)
        requires
            old(self).wf(),
            old(self).revisions_view().revision < u64::MAX,
        ensures
            refusal == old(self).reparent_refusal(child, parent),
            final(self).wf(),
            final(self).elements_view() == old(self).elements_view(),
            final(self).declarations_view() == old(self).declarations_view(),
            final(self).declared_view() == old(self).declared_view(),
            ({
                let refused = !old(self).contains(child) || !old(self).contains(parent) || old(self).is_under(
                    old(self).index_of_id(parent),
                    old(self).index_of_id(child),
                );
                if refused || old(self).parent_of(child) == Some(parent) {
                    &&& final(self).relations_view() == old(self).relations_view()
                    &&& final(self).revisions_view() == old(self).revisions_view()
                } else {
                    &&& final(self).relations_view() == without_child(old(self).relations_view(), child).push(
                        (parent, child),
                    )
                    &&& final(self).parent_of(child) == Some(parent)
                    &&& final(self).revisions_view() == all_revisions((old(self).revisions_view().revision + 1) as u64)
                }
            }),
    {
        let child_index = match self.element_index(child) {
            Some(index) => index,
            None => {
                // The element was removed before the reparent was applied.
                return Some(ReparentRefusal::Missing);
            },
        };
        let parent_index = match self.element_index(parent) {
            Some(index) => index,
            None => {
                return Some(ReparentRefusal::Missing);
            },
        };
        let ghost par = self.parents@;
        let ghost d = self.depths@;
        let mut ancestor = Some(parent_index);
        loop
            invariant
                self == old(self),
                self.wf(),
                child_index < self.elements@.len(),
                parent_index < self.elements@.len(),
                child_index as int == old(self).index_of_id(child),
                parent_index as int == old(self).index_of_id(parent),
                old(self).ids()[child_index as int] == child,
                old(self).ids()[parent_index as int] == parent,
                par == self.parents@,
                d == self.depths@,
                match ancestor {
                    Some(current) => current < self.elements@.len() && (index_under(par, d, parent_index as int, child_index as int)
                        == index_under(par, d, current as int, child_index as int)),
                    None => !index_under(par, d, parent_index as int, child_index as int),
                },
            ensures
                self == old(self),
                !index_under(par, d, parent_index as int, child_index as int),
            decreases
                match ancestor {
                    Some(current) => d[current as int] + 1,
                    None => 0,
                },
        {
            match ancestor {
                Some(current) => {
                    if current == child_index {
                        proof {
                            assert(index_under(par, d, current as int, child_index as int));
                        }
                        // Moving an element under itself or one of its descendants would make a cycle.
                        return Some(ReparentRefusal::UnderItself);
                    }
                    proof {
                        let _ = par[current as int];
                    }
                    ancestor = self.parents[current];
                },
                None => {
                    break;
                },
            }
        }
        proof {
            let _ = par[child_index as int];
        }
        if self.parents[child_index] == Some(parent_index) {
            return None;
        }
        let ghost rel = self.relations@;
        let ghost els = self.elements@;
        let previous = self.parents[child_index];
        proof {
            lemma_without_child(rel, child);
        }
        match previous {
            Some(previous) => {
                let ghost cids = child_ids(rel, els[previous as int].id);
                proof {
                    let _ = self.children@[previous as int];
                }
                let mut list = Vec::new();
                std::mem::swap(&mut list, &mut self.children[previous]);
                let mut kept: Vec<usize> = Vec::new();
                let mut k: usize = 0;
                while k < list.len()
                    invariant
                        0 <= k <= list@.len(),
                        list@.len() == cids.len(),
                        forall|m: int| 0 <= m < list@.len() ==> (#[trigger] list@[m]) < els.len() && els[list@[m] as int].id == cids[m],
                        kept@.len() == without_id(cids.take(k as int), child).len(),
                        forall|m: int| 0 <= m < kept@.len() ==> (#[trigger] kept@[m]) < els.len() && els[kept@[m] as int].id == without_id(cids.take(k as int), child)[m],
                        forall|i: int, j: int| 0 <= i < j < els.len() ==> (#[trigger] els[i]).id != (#[trigger] els[j]).id,
                        els[child_index as int].id == child,
                        child_index < els.len(),
                    decreases list@.len() - k,
                {
                    let sibling = list[k];
                    proof {
                        assert(cids.take(k + 1).drop_last() =~= cids.take(k as int));
                        assert(cids.take(k + 1).last() == cids[k as int]);
                        assert(els[list@[k as int] as int].id == cids[k as int]);
                    }
                    if sibling != child_index {
                        kept.push(sibling);
                    }
                    k = k + 1;
                }
                proof {
                    assert(cids.take(list@.len() as int) =~= cids);
                }
                std::mem::swap(&mut kept, &mut self.children[previous]);
                let mut relations: Vec<(Id, Id)> = Vec::new();
                let mut a: usize = 0;
                while a < self.relations.len()
                    invariant
                        0 <= a <= self.relations@.len(),
                        self.relations@ == rel,
                        relations@ == without_child(rel.take(a as int), child),
                    decreases self.relations@.len() - a,
                {
                    let relation = self.relations[a];
                    proof {
                        assert(rel.take(a + 1).drop_last() =~= rel.take(a as int));
                        assert(rel.take(a + 1).last() == rel[a as int]);
                    }
                    if relation.1 != child {
                        relations.push(relation);
                    }
                    a = a + 1;
                }
                proof {
                    assert(rel.take(rel.len() as int) =~= rel);
                }
                self.relations = relations;
            },
            None => {
                proof {
                    lemma_without_child_absent(rel, child);
                }
            },
        }
        self.parents.set(child_index, Some(parent_index));
        let mut list = Vec::new();
        std::mem::swap(&mut list, &mut self.children[parent_index]);
        list.push(child_index);
        std::mem::swap(&mut list, &mut self.children[parent_index]);
        self.relations.push((parent, child));
        let revision = self.revisions.revision + 1;
        self.revisions = Revisions {
            revision,
            placement: revision,
            non_transform: revision,
            flow: revision,
            clip: revision,
            appearance: revision,
        };
        proof {
            let ci = child_index as int;
            let pi = parent_index as int;
            let shift = |i: int|
                if index_under(par, d, i, ci) {
                    (d[i] - d[ci] + d[pi] + 1) as nat
                } else {
                    d[i]
                };
            self.depths@ = Seq::new(els.len(), shift);
            let nrel = self.relations@;
            let wc = without_child(rel, child);
            let len = els.len();
            assert(self.elements@ == els);
            assert(nrel == wc.push((parent, child)));
            assert(els[ci].id == child && els[pi].id == parent);
            assert(!index_under(par, d, pi, ci));
            // Child lists: only the previous and the new parent change.
            assert forall|x: Id| #![auto] true implies child_ids(nrel, x) == if x == parent {
                without_id(child_ids(rel, x), child).push(child)
            } else {
                without_id(child_ids(rel, x), child)
            } by {
                lemma_child_ids_push(wc, (parent, child), x);
                lemma_child_ids_without(rel, child, x);
            }
            assert forall|i: int| 0 <= i < len implies (#[trigger] self.children@[i])@.len() == child_ids(
                nrel,
                els[i].id,
            ).len() && forall|k: int|
                0 <= k < self.children@[i]@.len() ==> (#[trigger] self.children@[i]@[k]) < len
                    && els[self.children@[i]@[k] as int].id == child_ids(nrel, els[i].id)[k] by {
                let _ = old(self).children@[i];
                let x = els[i].id;
                if previous != Some(i as usize) {
                    // The child has no relation from `x`, so its list loses nothing.
                    assert(!child_ids(rel, x).contains(child)) by {
                        if child_ids(rel, x).contains(child) {
                            let k = choose|k: int| 0 <= k < child_ids(rel, x).len() && child_ids(rel, x)[k] == child;
                            lemma_child_ids_related(rel, x, k);
                            let a = choose|a: int| 0 <= a < rel.len() && rel[a] == (x, child);
                            let _ = par[ci];
                            if let Some(pp) = previous {
                                let b = choose|b: int| 0 <= b < rel.len() && rel[b] == (els[pp as int].id, els[ci].id);
                                if a != b {
                                    if a < b {
                                        assert(rel[a].1 != rel[b].1);
                                    } else {
                                        assert(rel[b].1 != rel[a].1);
                                    }
                                }
                            }
                        }
                    }
                    lemma_without_id_absent(child_ids(rel, x), child);
                }
            }
            assert forall|i: int| 0 <= i < len implies match #[trigger] self.parents@[i] {
                Some(p) => p < len && self.depths@[p as int] < self.depths@[i] && nrel.contains(
                    (els[p as int].id, els[i].id),
                ),
                None => forall|a: int| 0 <= a < nrel.len() ==> nrel[a].1 != els[i].id,
            } by {
                let _ = par[i];
                if i == ci {
                    assert(nrel[nrel.len() - 1] == (parent, child));
                } else {
                    assert(els[i].id != child);
                    match par[i] {
                        Some(p) => {
                            assert(index_under(par, d, i, ci) == index_under(par, d, p as int, ci));
                            if index_under(par, d, i, ci) {
                                lemma_under_depth(par, d, p as int, ci);
                            }
                            let a = choose|a: int| 0 <= a < rel.len() && rel[a] == (els[p as int].id, els[i].id);
                            let b = choose|b: int| 0 <= b < wc.len() && wc[b] == rel[a];
                            assert(nrel[b] == wc[b]);
                        },
                        None => {
                            assert forall|a: int| 0 <= a < nrel.len() implies nrel[a].1 != els[i].id by {
                                if a < wc.len() {
                                    assert(nrel[a] == wc[a]);
                                    let b = choose|b: int| 0 <= b < rel.len() && rel[b] == wc[a];
                                }
                            }
                        },
                    }
                }
            }
            assert forall|a: int| 0 <= a < nrel.len() implies self.element_indices@.contains_key(
                (#[trigger] nrel[a]).0,
            ) && self.element_indices@.contains_key(nrel[a].1) by {
                if a < wc.len() {
                    assert(nrel[a] == wc[a]);
                    let b = choose|b: int| 0 <= b < rel.len() && rel[b] == wc[a];
                    assert(old(self).element_indices@.contains_key(rel[b].0));
                } else {
                    assert(self.element_indices@.contains_key(els[ci].id));
                    assert(self.element_indices@.contains_key(els[pi].id));
                }
            }
            assert forall|a: int, b: int| 0 <= a < b < nrel.len() implies (#[trigger] nrel[a]).1
                != (#[trigger] nrel[b]).1 by {
                assert(nrel[a] == wc[a]);
                if b < wc.len() {
                    assert(nrel[b] == wc[b]);
                }
            }
            assert forall|k: Id| #[trigger] self.element_indices@.contains_key(k) implies self.element_indices@[k]
                < len && els[self.element_indices@[k] as int].id == k by {
                assert(old(self).element_indices@.contains_key(k));
            }
            assert(self.wf());
            assert(self.ids() =~= old(self).ids());
        }
        None
    }
}


/// Without any relation of `child`, removing them changes nothing.
proof fn lemma_without_child_absent(relations: Seq<(Id, Id)>, child: Id)
    requires
        forall|a: int| 0 <= a < relations.len() ==> (#[trigger] relations[a]).1 != child,
    ensures
        without_child(relations, child) == relations,
    decreases relations.len(),
{
    if relations.len() > 0 {
        let rest = relations.drop_last();
        assert forall|a: int| 0 <= a < rest.len() implies (#[trigger] rest[a]).1 != child by {
            assert(rest[a] == relations[a]);
        }
        lemma_without_child_absent(rest, child);
        assert(relations[relations.len() - 1] == relations.last());
        assert(rest.push(relations.last()) =~= relations);
    }
}


impl<P> RetainedTree<P> {
    /// The conditions under which index links can be rebuilt from the elements and the relations alone.
    ///
    /// `pos` gives, for each relation, the indices of its parent and its child.
    closed spec fn rebuildable(&self, pos: Seq<(int, int)>) -> bool {
        let els = self.elements@;
        let rel = self.relations@;
        let d = self.depths@;
        &&& d.len() == els.len()
        &&& pos.len() == rel.len()
        &&& forall|i: int, j: int| 0 <= i < j < els.len() ==> (#[trigger] els[i]).id != (#[trigger] els[j]).id
        &&& forall|a: int, b: int| 0 <= a < b < rel.len() ==> (#[trigger] rel[a]).1 != (#[trigger] rel[b]).1
        &&& forall|a: int|
            0 <= a < rel.len() ==> 0 <= (#[trigger] pos[a]).0 < els.len() && 0 <= pos[a].1 < els.len()
                && els[pos[a].0].id == rel[a].0 && els[pos[a].1].id == rel[a].1 && d[pos[a].0] < d[pos[a].1]
    }

    /// Whether everything but the elements and their links is the same in both trees.
    closed spec fn same_bookkeeping(&self, other: &Self) -> bool {
        &&& self.declarations == other.declarations
        &&& self.declared == other.declared
        &&& self.removed == other.removed
        &&& self.revisions == other.revisions
        &&& self.serials == other.serials
        &&& self.next_serial == other.next_serial
        &&& self.next_content_id == other.next_content_id
        &&& self.transform_changes == other.transform_changes
        &&& self.text_changes == other.text_changes
    }

    /// Restores index-based links after removal compacts the live elements.
    fn rebuild_element_indices(&mut self, Ghost(pos): Ghost<Seq<(int, int)>>)
        requires
            old(self).rebuildable(pos),
        ensures
            final(self).wf(),
            final(self).elements@ == old(self).elements@,
            final(self).relations@ == old(self).relations@,
            final(self).depths@ == old(self).depths@,
            final(self).same_bookkeeping(old(self)),
    {
        let ghost els = self.elements@;
        let ghost rel = self.relations@;
        let ghost d = self.depths@;
        self.element_indices.clear();
        let mut i: usize = 0;
        while i < self.elements.len()
            invariant
                self.same_bookkeeping(old(self)),
                self.elements@ == els,
                self.relations@ == rel,
                self.depths@ == d,
                old(self).rebuildable(pos),
                els == old(self).elements@,
                rel == old(self).relations@,
                d == old(self).depths@,
                0 <= i <= els.len(),
                forall|a: int, b: int| 0 <= a < b < els.len() ==> (#[trigger] els[a]).id != (#[trigger] els[b]).id,
                forall|k: Id| #[trigger] self.element_indices@.contains_key(k) ==> self.element_indices@[k] < i
                    && els[self.element_indices@[k] as int].id == k,
                forall|m: int| 0 <= m < i ==> self.element_indices@.contains_key((#[trigger] els[m]).id)
                    && self.element_indices@[els[m].id] == m,
            decreases els.len() - i,
        {
            let id = self.elements[i].id;
            proof {
                assert forall|m: int| 0 <= m < i implies (#[trigger] els[m]).id != id by {}
            }
            self.element_indices.insert(id, i);
            i = i + 1;
        }
        let len = self.elements.len();
        self.parents.clear();
        assert(self.elements@ == els);
        let mut i: usize = 0;
        while i < len
            invariant
                self.same_bookkeeping(old(self)),
                self.elements@ == els,
                self.relations@ == rel,
                self.depths@ == d,
                old(self).rebuildable(pos),
                els == old(self).elements@,
                rel == old(self).relations@,
                d == old(self).depths@,
                forall|k: Id| #[trigger] self.element_indices@.contains_key(k) ==> self.element_indices@[k] < els.len()
                    && els[self.element_indices@[k] as int].id == k,
                forall|m: int| 0 <= m < els.len() ==> self.element_indices@.contains_key((#[trigger] els[m]).id)
                    && self.element_indices@[els[m].id] == m,
                len == els.len(),
                self.parents@.len() == i,
                i <= len,
                forall|m: int| 0 <= m < i ==> self.parents@[m] is None,
            decreases len - i,
        {
            self.parents.push(None);
            i = i + 1;
        }
        while self.children.len() < len
            invariant
                self.same_bookkeeping(old(self)),
                self.elements@ == els,
                self.relations@ == rel,
                self.depths@ == d,
                old(self).rebuildable(pos),
                els == old(self).elements@,
                rel == old(self).relations@,
                d == old(self).depths@,
                forall|k: Id| #[trigger] self.element_indices@.contains_key(k) ==> self.element_indices@[k] < els.len()
                    && els[self.element_indices@[k] as int].id == k,
                forall|m: int| 0 <= m < els.len() ==> self.element_indices@.contains_key((#[trigger] els[m]).id)
                    && self.element_indices@[els[m].id] == m,
                len == els.len(),
                self.parents@.len() == len,
                forall|m: int| 0 <= m < len ==> self.parents@[m] is None,
            decreases len - self.children@.len(),
        {
            self.children.push(Vec::new());
        }
        let total = self.children.len();
        let mut i: usize = 0;
        while i < total
            invariant
                self.same_bookkeeping(old(self)),
                self.elements@ == els,
                self.relations@ == rel,
                self.depths@ == d,
                old(self).rebuildable(pos),
                els == old(self).elements@,
                rel == old(self).relations@,
                d == old(self).depths@,
                forall|k: Id| #[trigger] self.element_indices@.contains_key(k) ==> self.element_indices@[k] < els.len()
                    && els[self.element_indices@[k] as int].id == k,
                forall|m: int| 0 <= m < els.len() ==> self.element_indices@.contains_key((#[trigger] els[m]).id)
                    && self.element_indices@[els[m].id] == m,
                len == els.len(),
                self.parents@.len() == len,
                forall|m: int| 0 <= m < len ==> self.parents@[m] is None,
                total >= len,
                self.children@.len() == total,
                i <= total,
                forall|m: int| 0 <= m < i ==> (#[trigger] self.children@[m])@.len() == 0,
            decreases total - i,
        {
            let mut list = Vec::new();
            std::mem::swap(&mut list, &mut self.children[i]);
            list.clear();
            std::mem::swap(&mut list, &mut self.children[i]);
            i = i + 1;
        }
        let mut a: usize = 0;
        while a < self.relations.len()
            invariant
                self.same_bookkeeping(old(self)),
                self.elements@ == els,
                self.relations@ == rel,
                self.depths@ == d,
                0 <= a <= rel.len(),
                self.parents@.len() == els.len(),
                self.children@.len() == total,
                total >= els.len(),
                forall|x: int, y: int| 0 <= x < y < els.len() ==> (#[trigger] els[x]).id != (#[trigger] els[y]).id,
                forall|x: int, y: int| 0 <= x < y < rel.len() ==> (#[trigger] rel[x]).1 != (#[trigger] rel[y]).1,
                old(self).rebuildable(pos),
                els == old(self).elements@,
                rel == old(self).relations@,
                d == old(self).depths@,
                forall|k: Id| #[trigger] self.element_indices@.contains_key(k) ==> self.element_indices@[k] < els.len()
                    && els[self.element_indices@[k] as int].id == k,
                forall|m: int| 0 <= m < els.len() ==> self.element_indices@.contains_key((#[trigger] els[m]).id)
                    && self.element_indices@[els[m].id] == m,
                forall|m: int|
                    0 <= m < els.len() ==> match #[trigger] self.parents@[m] {
                        Some(p) => p < els.len() && d[p as int] < d[m] && rel.take(a as int).contains(
                            (els[p as int].id, els[m].id),
                        ),
                        None => forall|x: int| 0 <= x < a ==> rel[x].1 != els[m].id,
                    },
                forall|m: int|
                    0 <= m < els.len() ==> (#[trigger] self.children@[m])@.len() == child_ids(rel.take(a as int), els[m].id).len()
                        && forall|k: int|
                        0 <= k < self.children@[m]@.len() ==> (#[trigger] self.children@[m]@[k]) < els.len()
                            && els[self.children@[m]@[k] as int].id == child_ids(rel.take(a as int), els[m].id)[k],
                forall|m: int| els.len() <= m < total ==> (#[trigger] self.children@[m])@.len() == 0,
            decreases rel.len() - a,
        {
            let (parent, child) = self.relations[a];
            proof {
                let _ = old(self).relations@[a as int];
            }
            let ghost (gi, gj) = pos[a as int];
            proof {
                assert(self.element_indices@.contains_key(els[gi].id));
                assert(self.element_indices@.contains_key(els[gj].id));
            }
            let parent_index = *self.element_indices.get(&parent).unwrap();
            let child_index = *self.element_indices.get(&child).unwrap();
            proof {
                assert(parent_index == gi && child_index == gj);
                assert(rel.take(a + 1).drop_last() =~= rel.take(a as int));
                assert(rel.take(a + 1).last() == rel[a as int]);
                assert forall|x: Id| #![auto] true implies child_ids(rel.take(a + 1), x) == if x == parent {
                    child_ids(rel.take(a as int), x).push(child)
                } else {
                    child_ids(rel.take(a as int), x)
                } by {
                    lemma_child_ids_push(rel.take(a as int), (parent, child), x);
                    assert(rel.take(a as int).push((parent, child)) =~= rel.take(a + 1));
                }
                // No earlier relation recorded this child.
                assert(self.parents@[child_index as int] is None) by {
                    let _ = self.parents@[child_index as int];
                    if let Some(p) = self.parents@[child_index as int] {
                        let x = choose|x: int| 0 <= x < a && rel.take(a as int)[x] == (els[p as int].id, els[gj].id);
                        assert(rel[x] == rel.take(a as int)[x]);
                    }
                }
            }
            self.parents.set(child_index, Some(parent_index));
            let mut list = Vec::new();
            std::mem::swap(&mut list, &mut self.children[parent_index]);
            list.push(child_index);
            std::mem::swap(&mut list, &mut self.children[parent_index]);
            proof {
                let ta = rel.take(a + 1);
                assert forall|m: int| 0 <= m < els.len() implies match #[trigger] self.parents@[m] {
                    Some(p) => p < els.len() && d[p as int] < d[m] && ta.contains((els[p as int].id, els[m].id)),
                    None => forall|x: int| 0 <= x < a + 1 ==> rel[x].1 != els[m].id,
                } by {
                    if m == child_index {
                        assert(ta[a as int] == (parent, child));
                    } else {
                        let _ = old(self).parents@.len();
                        match self.parents@[m] {
                            Some(p) => {
                                let x = choose|x: int| 0 <= x < a && rel.take(a as int)[x] == (els[p as int].id, els[m].id);
                                assert(ta[x] == rel.take(a as int)[x]);
                            },
                            None => {
                                assert(els[m].id != child);
                            },
                        }
                    }
                }
            }
            a = a + 1;
        }
        proof {
            assert(rel.take(rel.len() as int) =~= rel);
            let len = els.len();
            assert forall|x: int| 0 <= x < rel.len() implies self.element_indices@.contains_key((#[trigger] rel[x]).0)
                && self.element_indices@.contains_key(rel[x].1) by {
                let _ = pos[x];
                let (gi, gj) = pos[x];
            }
            assert(self.wf());
        }
    }
}


/// `kept_relations` keeps relations of `relations` whose ends survive, and their children stay distinct.
proof fn lemma_kept_relations(relations: Seq<(Id, Id)>, removed: Set<Id>)
    requires
        forall|a: int, b: int| 0 <= a < b < relations.len() ==> (#[trigger] relations[a]).1 != (#[trigger] relations[b]).1,
    ensures
        forall|a: int|
            0 <= a < kept_relations(relations, removed).len() ==> relations.contains(
                #[trigger] kept_relations(relations, removed)[a],
            ) && !removed.contains(kept_relations(relations, removed)[a].0) && !removed.contains(
                kept_relations(relations, removed)[a].1,
            ),
        forall|a: int, b: int|
            0 <= a < b < kept_relations(relations, removed).len() ==> (#[trigger] kept_relations(relations, removed)[a]).1
                != (#[trigger] kept_relations(relations, removed)[b]).1,
    decreases relations.len(),
{
    if relations.len() > 0 {
        let rest = relations.drop_last();
        let last = relations.last();
        let w = kept_relations(rest, removed);
        let k = kept_relations(relations, removed);
        assert forall|a: int, b: int| 0 <= a < b < rest.len() implies (#[trigger] rest[a]).1 != (#[trigger] rest[b]).1 by {
            assert(rest[a] == relations[a] && rest[b] == relations[b]);
        }
        lemma_kept_relations(rest, removed);
        assert forall|a: int| 0 <= a < k.len() implies relations.contains(#[trigger] k[a]) && !removed.contains(k[a].0)
            && !removed.contains(k[a].1) by {
            if a < w.len() {
                assert(k[a] == w[a]);
                let b = choose|b: int| 0 <= b < rest.len() && rest[b] == w[a];
                assert(relations[b] == rest[b]);
            } else {
                assert(relations[relations.len() - 1] == last);
            }
        }
        assert forall|a: int, b: int| 0 <= a < b < k.len() implies (#[trigger] k[a]).1 != (#[trigger] k[b]).1 by {
            if b < w.len() {
                assert(k[a] == w[a] && k[b] == w[b]);
            } else {
                assert(k[a] == w[a]);
                let c = choose|c: int| 0 <= c < rest.len() && rest[c] == w[a];
                assert(relations[c] == rest[c]);
                assert(relations[relations.len() - 1] == last);
            }
        }
    }
}

/// When nothing is declared under `scope`, removing it keeps every element.
proof fn lemma_kept_elements_all<P>(elements: Seq<IdedElement<P>>, declarations: Map<u64, u64>, scope: u64)
    requires
        forall|m: int| 0 <= m < elements.len() ==> !declared_under(declarations, (#[trigger] elements[m]).id, scope),
    ensures
        kept_elements(elements, declarations, scope) == elements,
    decreases elements.len(),
{
    if elements.len() > 0 {
        let rest = elements.drop_last();
        assert forall|m: int| 0 <= m < rest.len() implies !declared_under(declarations, (#[trigger] rest[m]).id, scope) by {
            assert(rest[m] == elements[m]);
        }
        lemma_kept_elements_all(rest, declarations, scope);
        assert(elements[elements.len() - 1] == elements.last());
        assert(rest.push(elements.last()) =~= elements);
    }
}

/// When no relation has a removed end, removing them keeps every relation.
proof fn lemma_kept_relations_all(relations: Seq<(Id, Id)>, removed: Set<Id>)
    requires
        forall|a: int| 0 <= a < relations.len() ==> !removed.contains((#[trigger] relations[a]).0) && !removed.contains(relations[a].1),
    ensures
        kept_relations(relations, removed) == relations,
    decreases relations.len(),
{
    if relations.len() > 0 {
        let rest = relations.drop_last();
        assert forall|a: int| 0 <= a < rest.len() implies !removed.contains((#[trigger] rest[a]).0) && !removed.contains(rest[a].1) by {
            assert(rest[a] == relations[a]);
        }
        lemma_kept_relations_all(rest, removed);
        assert(relations[relations.len() - 1] == relations.last());
        assert(rest.push(relations.last()) =~= relations);
    }
}

impl<P> RetainedTree<P> {
    /// The ids of live elements declared under `scope`, which a removal of `scope` takes out.
    pub open spec fn scope_ids(&self, scope: u64) -> Set<Id> {
        Set::new(|id: Id| self.contains(id) && declared_under(self.declarations_view(), id, scope))
    }

    /// Removes every element declared under `scope` and returns their ids.
    ///
    /// Scope ownership follows declaration paths, never the current visual parent. The root scope is never removed.
    /// The relations of removed elements go with them, so a surviving element whose parent was removed becomes a
    /// root.
    pub fn remove_scope(&mut self, scope: u64) -> (r: &HashSet<Id>)
        requires
            old(self).wf(),
            old(self).revisions_view().revision < u64::MAX,
        ensures
            final(self).wf(),
            r@ == final(self).removed_view(),
            final(self).declarations_view() == old(self).declarations_view(),
            if scope == ROOT_PATH {
                &&& final(self).removed_view() == Set::<Id>::empty()
                &&& final(self).elements_view() == old(self).elements_view()
                &&& final(self).relations_view() == old(self).relations_view()
                &&& final(self).revisions_view() == old(self).revisions_view()
                &&& final(self).declared_view() == old(self).declared_view()
            } else {
                let removed = old(self).scope_ids(scope);
                &&& final(self).removed_view() == removed
                &&& final(self).elements_view() == kept_elements(
                    old(self).elements_view(),
                    old(self).declarations_view(),
                    scope,
                )
                &&& final(self).declared_view() == old(self).declared_view().difference(removed)
                &&& if removed.is_empty() {
                    &&& final(self).relations_view() == old(self).relations_view()
                    &&& final(self).revisions_view() == old(self).revisions_view()
                } else {
                    &&& final(self).relations_view() == kept_relations(old(self).relations_view(), removed)
                    &&& final(self).revisions_view() == all_revisions((old(self).revisions_view().revision + 1) as u64)
                }
            },
    {
        self.removed.clear();
        if scope == ROOT_PATH {
            return &self.removed;
        }
        let ghost old_els = self.elements@;
        let ghost decl = self.declarations@;
        let ghost n = old_els.len();
        let mut rest: Vec<IdedElement<P>> = Vec::new();
        std::mem::swap(&mut rest, &mut self.elements);
        let mut reversed: Vec<IdedElement<P>> = Vec::new();
        while rest.len() > 0
            invariant
                rest@ == old_els.take(rest@.len() as int),
                reversed@.len() + rest@.len() == n,
                n == old_els.len(),
                forall|m: int| 0 <= m < reversed@.len() ==> #[trigger] reversed@[m] == old_els[n - 1 - m],
            decreases rest@.len(),
        {
            let element = rest.pop().unwrap();
            proof {
                assert(old_els.take(rest@.len() as int + 1)[rest@.len() as int] == old_els[rest@.len() as int]);
                assert(old_els.take(rest@.len() as int + 1).drop_last() =~= old_els.take(rest@.len() as int));
            }
            reversed.push(element);
        }
        let ghost mut origin: Seq<int> = Seq::empty();
        while reversed.len() > 0
            invariant
                self.wf() == self.wf(),
                n == old_els.len(),
                decl == self.declarations@,
                decl == old(self).declarations@,
                self.element_indices == old(self).element_indices,
                self.relations == old(self).relations,
                self.parents == old(self).parents,
                self.children == old(self).children,
                self.depths == old(self).depths,
                self.revisions == old(self).revisions,
                old_els == old(self).elements@,
                forall|i: int, j: int| 0 <= i < j < n ==> (#[trigger] old_els[i]).id != (#[trigger] old_els[j]).id,
                reversed@.len() <= n,
                forall|m: int| 0 <= m < reversed@.len() ==> #[trigger] reversed@[m] == old_els[n - 1 - m],
                self.elements@ == kept_elements(old_els.take(n - reversed@.len()), decl, scope),
                origin.len() == self.elements@.len(),
                forall|j: int|
                    0 <= j < origin.len() ==> 0 <= #[trigger] origin[j] < n - reversed@.len() && old_els[origin[j]]
                        == self.elements@[j] && !declared_under(decl, old_els[origin[j]].id, scope),
                forall|i: int, j: int| 0 <= i < j < origin.len() ==> #[trigger] origin[i] < #[trigger] origin[j],
                forall|m: int|
                    0 <= m < n - reversed@.len() && !declared_under(decl, (#[trigger] old_els[m]).id, scope) ==> exists|j: int|
                        0 <= j < origin.len() && origin[j] == m,
                forall|x: Id|
                    #[trigger] self.removed@.contains(x) <==> (exists|m: int|
                        0 <= m < n - reversed@.len() && (#[trigger] old_els[m]).id == x) && declared_under(decl, x, scope),
                self.declared@ == old(self).declared@.difference(self.removed@),
            decreases reversed@.len(),
        {
            let element = reversed.pop().unwrap();
            let ghost k = n - reversed@.len() - 1;
            proof {
                assert(element == old_els[k]);
                assert(old_els.take(k + 1).drop_last() =~= old_els.take(k));
                assert(old_els.take(k + 1).last() == old_els[k]);
            }
            if is_declared_under(&self.declarations, element.id, scope) {
                self.removed.insert(element.id);
                // The same key may be declared again in this frame once its element is gone.
                self.declared.remove(&element.id);
                proof {
                    assert forall|x: Id|
                        #[trigger] self.removed@.contains(x) <==> (exists|m: int|
                            0 <= m < k + 1 && (#[trigger] old_els[m]).id == x) && declared_under(decl, x, scope) by {
                        if x == element.id {
                            assert(old_els[k].id == x);
                        }
                    }
                    assert(self.declared@ =~= old(self).declared@.difference(self.removed@));
                }
            } else {
                self.elements.push(element);
                proof {
                    let old_origin = origin;
                    origin = origin.push(k);
                    assert forall|m: int|
                        0 <= m < k + 1 && !declared_under(decl, (#[trigger] old_els[m]).id, scope) implies exists|j: int|
                            0 <= j < origin.len() && origin[j] == m by {
                        if m == k {
                            assert(origin[origin.len() - 1] == k);
                        } else {
                            let j = choose|j: int| 0 <= j < old_origin.len() && old_origin[j] == m;
                            assert(origin[j] == m);
                        }
                    }
                    assert forall|x: Id|
                        #[trigger] self.removed@.contains(x) <==> (exists|m: int|
                            0 <= m < k + 1 && (#[trigger] old_els[m]).id == x) && declared_under(decl, x, scope) by {
                        if self.removed@.contains(x) {
                            let m = choose|m: int| 0 <= m < k && (#[trigger] old_els[m]).id == x;
                        }
                        if exists|m: int| 0 <= m < k + 1 && (#[trigger] old_els[m]).id == x && declared_under(decl, x, scope) {
                            let m = choose|m: int| 0 <= m < k + 1 && (#[trigger] old_els[m]).id == x && declared_under(decl, x, scope);
                            assert(m != k);
                        }
                    }
                }
            }
        }
        proof {
            assert(old_els.take(n as int) =~= old_els);
            let removed = old(self).scope_ids(scope);
            assert forall|x: Id| self.removed@.contains(x) <==> removed.contains(x) by {
                if self.removed@.contains(x) {
                    let m = choose|m: int| 0 <= m < n && (#[trigger] old_els[m]).id == x;
                    assert(old(self).ids()[m] == x);
                }
                if removed.contains(x) {
                    let m = choose|m: int| 0 <= m < n && old(self).ids()[m] == x;
                    assert(old_els[m].id == x);
                }
            }
            assert(self.removed@ =~= removed);
        }
        if self.removed.is_empty() {
            proof {
                assert forall|m: int| 0 <= m < n implies !declared_under(decl, (#[trigger] old_els[m]).id, scope) by {
                    if declared_under(decl, old_els[m].id, scope) {
                        assert(self.removed@.contains(old_els[m].id));
                    }
                }
                lemma_kept_elements_all(old_els, decl, scope);
                assert(self.elements@ == old_els);
                assert(self.declared@ =~= old(self).declared@);
            }
            return &self.removed;
        }
        let revision = self.revisions.revision + 1;
        self.revisions = Revisions {
            revision,
            placement: revision,
            non_transform: revision,
            flow: revision,
            clip: revision,
            appearance: revision,
        };
        let ghost rel = self.relations@;
        let ghost mut pos: Seq<(int, int)> = Seq::empty();
        let mut relations: Vec<(Id, Id)> = Vec::new();
        let mut a: usize = 0;
        while a < self.relations.len()
            invariant
                0 <= a <= self.relations@.len(),
                self.relations@ == rel,
                relations@ == kept_relations(rel.take(a as int), self.removed@),
            decreases self.relations@.len() - a,
        {
            let relation = self.relations[a];
            proof {
                assert(rel.take(a + 1).drop_last() =~= rel.take(a as int));
                assert(rel.take(a + 1).last() == rel[a as int]);
            }
            if !self.removed.contains(&relation.0) && !self.removed.contains(&relation.1) {
                relations.push(relation);
            }
            a = a + 1;
        }
        proof {
            assert(rel.take(rel.len() as int) =~= rel);
        }
        self.relations = relations;
        proof {
            let d = old(self).depths@;
            let nd = Seq::new(self.elements@.len(), |j: int| d[origin[j]]);
            self.depths@ = nd;
            assert forall|m: int| 0 <= m < n && !self.removed@.contains((#[trigger] old_els[m]).id) implies exists|j: int|
                0 <= j < origin.len() && origin[j] == m by {
                if !declared_under(decl, old_els[m].id, scope) {
                } else {
                    assert(self.removed@.contains(old_els[m].id));
                }
            }
            pos = lemma_removal_rebuildable(old(self), self, origin, self.removed@);
        }
        self.rebuild_element_indices(Ghost(pos));
        &self.removed
    }
}


/// The counters after an edit that changed what `change` reports, starting from `old` at revision `old.revision + 1`.
pub open spec fn revisions_after(old: Revisions, change: ElementChange) -> Revisions {
    let next = (old.revision + 1) as u64;
    if change.unchanged {
        old
    } else {
        Revisions {
            revision: next,
            placement: if change.placement_changed { next } else { old.placement },
            non_transform: if change.placement_changed || !change.transform_changed { next } else { old.non_transform },
            flow: if change.flow_changed { next } else { old.flow },
            clip: if change.clip_changed { next } else { old.clip },
            appearance: if change.clip_changed || change.opacity_changed { next } else { old.appearance },
        }
    }
}

/// An edit that changed something advances the tree revision by one and makes current exactly the counters of what it
/// changed: placement with a placement edit; the part outside transforms with a placement edit or any edit that is not
/// a transform change alone; flow with a flow edit; clipping with a clip edit; appearance with a clip or an opacity
/// edit. Every other counter keeps its value, and an edit that changed nothing changes no counter.
pub proof fn an_edit_invalidates_exactly_what_it_changed(old: Revisions, change: ElementChange)
    requires
        old.revision < u64::MAX,
    ensures
        ({
            let new = revisions_after(old, change);
            if change.unchanged {
                new == old
            } else {
                &&& new.revision == old.revision + 1
                &&& new.placement == (if change.placement_changed { new.revision } else { old.placement })
                &&& (change.placement_changed || !change.transform_changed) ==> new.non_transform == new.revision
                &&& (!change.placement_changed && change.transform_changed) ==> new.non_transform == old.non_transform
                &&& change.flow_changed ==> new.flow == new.revision
                &&& !change.flow_changed ==> new.flow == old.flow
                &&& change.clip_changed ==> new.clip == new.revision
                &&& !change.clip_changed ==> new.clip == old.clip
                &&& (change.clip_changed || change.opacity_changed) ==> new.appearance == new.revision
                &&& (!change.clip_changed && !change.opacity_changed) ==> new.appearance == old.appearance
            }
        }),
{
}

impl<P> RetainedTree<P> {
    /// Lends the payload of the element at `index` for an edit. Report the edit with [`Self::record_update`].
    pub fn element_mut(&mut self, index: usize) -> (r: &mut P)
        requires
            old(self).wf(),
            index < old(self).elements_view().len(),
        ensures
            *r == old(self).elements_view()[index as int].element,
            final(self).wf(),
            final(self).elements_view() == old(self).elements_view().update(
                index as int,
                IdedElement { element: *final(r), ..old(self).elements_view()[index as int] },
            ),
            final(self).relations_view() == old(self).relations_view(),
            final(self).declarations_view() == old(self).declarations_view(),
            final(self).declared_view() == old(self).declared_view(),
            final(self).revisions_view() == old(self).revisions_view(),
            final(self).transform_changes_view() == old(self).transform_changes_view(),
            final(self).text_changes_view() == old(self).text_changes_view(),
    {
        &mut self.elements[index].element
    }

    /// Records an edit of the element at `index` so consumers invalidate exactly what it changed.
    ///
    /// An edit that wrote the values already present changes nothing, so every revision stays put and consumers keep
    /// their retained renders. Otherwise the element and the tree advance to a new revision, and each derived counter
    /// advances only when an input it covers changed.
    pub fn record_update(&mut self, index: usize, change: ElementChange)
        requires
            old(self).wf(),
            index < old(self).elements_view().len(),
            old(self).revisions_view().revision < u64::MAX,
        ensures
            final(self).wf(),
            final(self).revisions_view() == revisions_after(old(self).revisions_view(), change),
            final(self).relations_view() == old(self).relations_view(),
            final(self).declarations_view() == old(self).declarations_view(),
            final(self).declared_view() == old(self).declared_view(),
            if change.unchanged {
                &&& final(self).elements_view() == old(self).elements_view()
                &&& final(self).transform_changes_view() == old(self).transform_changes_view()
                &&& final(self).text_changes_view() == old(self).text_changes_view()
            } else {
                &&& final(self).elements_view() == old(self).elements_view().update(
                    index as int,
                    IdedElement {
                        revision: (old(self).revisions_view().revision + 1) as u64,
                        ..old(self).elements_view()[index as int]
                    },
                )
                &&& final(self).transform_changes_view() == if change.transform_changed
                    && !old(self).transform_changes_view().contains(index) {
                    old(self).transform_changes_view().push(index)
                } else {
                    old(self).transform_changes_view()
                }
                &&& final(self).text_changes_view() == if !change.placement_changed && change.text_changed {
                    old(self).text_changes_view().push(index)
                } else {
                    old(self).text_changes_view()
                }
            },
    {
        if change.unchanged {
            return;
        }
        let old = self.revisions;
        let next = old.revision + 1;
        self.revisions = Revisions {
            revision: next,
            placement: if change.placement_changed { next } else { old.placement },
            non_transform: if change.placement_changed || !change.transform_changed { next } else { old.non_transform },
            flow: if change.flow_changed { next } else { old.flow },
            clip: if change.clip_changed { next } else { old.clip },
            appearance: if change.clip_changed || change.opacity_changed { next } else { old.appearance },
        };
        self.elements[index].revision = next;
        if change.transform_changed {
            let mut known = false;
            let mut k: usize = 0;
            while k < self.transform_changes.len()
                invariant
                    k <= self.transform_changes@.len(),
                    known == self.transform_changes@.take(k as int).contains(index),
                decreases self.transform_changes@.len() - k,
            {
                let ghost before = self.transform_changes@.take(k as int);
                proof {
                    assert(self.transform_changes@.take(k + 1) =~= before.push(self.transform_changes@[k as int]));
                }
                if self.transform_changes[k] == index {
                    known = true;
                    proof {
                        assert(self.transform_changes@.take(k + 1)[k as int] == index);
                    }
                } else {
                    proof {
                        let next = self.transform_changes@.take(k + 1);
                        if next.contains(index) {
                            let w = choose|w: int| 0 <= w < next.len() && next[w] == index;
                            assert(before[w] == index);
                        }
                        if before.contains(index) {
                            let w = choose|w: int| 0 <= w < before.len() && before[w] == index;
                            assert(next[w] == index);
                        }
                    }
                }
                k = k + 1;
            }
            proof {
                assert(self.transform_changes@.take(k as int) =~= self.transform_changes@);
            }
            if !known {
                self.transform_changes.push(index);
            }
        }
        if !change.placement_changed && change.text_changed {
            self.text_changes.push(index);
        }
    }

    /// Returns the roots whose visual transforms changed since they were last taken, and forgets them.
    pub fn take_transform_changes(&mut self) -> (r: Vec<usize>)
        requires
            old(self).wf(),
        ensures
            final(self).wf(),
            r@ == old(self).transform_changes_view(),
            final(self).transform_changes_view() == Seq::<usize>::empty(),
            final(self).elements_view() == old(self).elements_view(),
            final(self).relations_view() == old(self).relations_view(),
            final(self).revisions_view() == old(self).revisions_view(),
            final(self).text_changes_view() == old(self).text_changes_view(),
    {
        let mut taken = Vec::new();
        std::mem::swap(&mut taken, &mut self.transform_changes);
        taken
    }

    /// Returns the text elements whose content changed without moving anything, and forgets them.
    pub fn take_text_changes(&mut self) -> (r: Vec<usize>)
        requires
            old(self).wf(),
        ensures
            final(self).wf(),
            r@ == old(self).text_changes_view(),
            final(self).text_changes_view() == Seq::<usize>::empty(),
            final(self).elements_view() == old(self).elements_view(),
            final(self).relations_view() == old(self).relations_view(),
            final(self).revisions_view() == old(self).revisions_view(),
            final(self).transform_changes_view() == old(self).transform_changes_view(),
    {
        let mut taken = Vec::new();
        std::mem::swap(&mut taken, &mut self.text_changes);
        taken
    }
}


/// Removing elements and the relations they take part in leaves a tree whose links can be rebuilt.
proof fn lemma_removal_rebuildable<P>(before: &RetainedTree<P>, after: &RetainedTree<P>, origin: Seq<int>, removed: Set<Id>) -> (pos: Seq<(int, int)>)
    requires
        before.wf(),
        after.elements@.len() == origin.len(),
        forall|j: int|
            0 <= j < origin.len() ==> 0 <= #[trigger] origin[j] < before.elements@.len() && before.elements@[origin[j]]
                == after.elements@[j],
        forall|i: int, j: int| 0 <= i < j < origin.len() ==> #[trigger] origin[i] < #[trigger] origin[j],
        forall|m: int|
            0 <= m < before.elements@.len() && !removed.contains((#[trigger] before.elements@[m]).id) ==> exists|j: int|
                0 <= j < origin.len() && origin[j] == m,
        after.relations@ == kept_relations(before.relations@, removed),
        after.depths@ == Seq::new(after.elements@.len(), |j: int| before.depths@[origin[j]]),
    ensures
        after.rebuildable(pos),
{
    let els = after.elements@;
    let old_els = before.elements@;
    let rel = before.relations@;
    let nrel = after.relations@;
    let nd = after.depths@;
    let idx = before.element_indices@;
    lemma_kept_relations(rel, removed);
    let new_index = |m: int| choose|j: int| 0 <= j < origin.len() && origin[j] == m;
    let pos = Seq::new(nrel.len(), |x: int| (new_index(idx[nrel[x].0] as int), new_index(idx[nrel[x].1] as int)));
    assert forall|i: int, j: int| 0 <= i < j < els.len() implies (#[trigger] els[i]).id != (#[trigger] els[j]).id by {
        assert(els[i] == old_els[origin[i]] && els[j] == old_els[origin[j]]);
    }
    assert forall|x: int| 0 <= x < nrel.len() implies 0 <= (#[trigger] pos[x]).0 < els.len() && 0 <= pos[x].1 < els.len()
        && els[pos[x].0].id == nrel[x].0 && els[pos[x].1].id == nrel[x].1 && nd[pos[x].0] < nd[pos[x].1] by {
        let (p, c) = nrel[x];
        let b = choose|b: int| 0 <= b < rel.len() && rel[b] == nrel[x];
        assert(idx.contains_key(rel[b].0));
        assert(idx.contains_key(rel[b].1));
        let op = idx[p] as int;
        let oc = idx[c] as int;
        let _ = before.parents@[oc];
        match before.parents@[oc] {
            Some(q) => {
                let e = choose|e: int| 0 <= e < rel.len() && rel[e] == (old_els[q as int].id, old_els[oc].id);
                if e != b {
                    if e < b {
                        assert(rel[e].1 != rel[b].1);
                    } else {
                        assert(rel[b].1 != rel[e].1);
                    }
                }
                assert(q as int == op);
            },
            None => {
                assert(rel[b].1 != old_els[oc].id);
            },
        }
        assert(!removed.contains(old_els[op].id));
        assert(!removed.contains(old_els[oc].id));
        let i = new_index(op);
        let j = new_index(oc);
        assert(pos[x] == (i, j));
        assert(els[i].id == p && els[j].id == c);
    }
    pos
}


impl<P> RetainedTree<P> {
    /// The element at index `i` followed by its ancestors, nearest first.
    spec fn chain_from(&self, i: int) -> Seq<Id>
        decreases self.depths@[i],
    {
        let here = seq![self.elements@[i].id];
        match self.parents@[i] {
            Some(p) => if self.depths@[p as int] < self.depths@[i] {
                here + self.chain_from(p as int)
            } else {
                here
            },
            None => here,
        }
    }

    /// `id` followed by its ancestors, nearest first; just `id` when the tree does not hold it.
    pub closed spec fn ancestors_view(&self, id: Id) -> Seq<Id> {
        if self.contains(id) {
            self.chain_from(self.index_of_id(id))
        } else {
            seq![id]
        }
    }

    /// Returns `id` followed by each of its ancestors, nearest first, as an event that bubbles reaches them.
    pub fn ancestors(&self, id: Id) -> (r: Vec<Id>)
        requires
            self.wf(),
        ensures
            r@ == self.ancestors_view(id),
            r@.len() >= 1,
            r@[0] == id,
    {
        let mut chain: Vec<Id> = Vec::new();
        chain.push(id);
        let mut current = match self.element_index(id) {
            Some(index) => index,
            None => {
                return chain;
            },
        };
        let ghost start = current as int;
        loop
            invariant
                self.wf(),
                current < self.elements_view().len(),
                chain@.len() >= 1,
                chain@.last() == self.elements@[current as int].id,
                chain@.drop_last() + self.chain_from(current as int) == self.chain_from(start),
                start == self.index_of_id(id),
                0 <= start < self.ids().len(),
                self.ids()[start] == id,
                chain@[0] == id,
            decreases self.depths@[current as int],
        {
            proof {
                let _ = self.parents@[current as int];
            }
            match self.parent_index_of(current) {
                Some(parent) => {
                    proof {
                        assert(self.depths@[parent as int] < self.depths@[current as int]);
                        assert(self.chain_from(current as int) == seq![self.elements@[current as int].id]
                            + self.chain_from(parent as int));
                        assert(self.chain_from(parent as int)[0] == self.elements@[parent as int].id);
                        assert(chain@.push(self.elements@[parent as int].id).drop_last() + self.chain_from(parent as int)
                            =~= chain@.drop_last() + self.chain_from(current as int));
                    }
                    chain.push(self.elements[parent].id);
                    current = parent;
                },
                None => {
                    proof {
                        assert(self.chain_from(current as int) == seq![self.elements@[current as int].id]);
                        assert(chain@ =~= chain@.drop_last() + self.chain_from(current as int));
                        assert(self.ids()[start] == id);
                        assert(self.contains(id));
                    }
                    return chain;
                },
            }
        }
    }
}

/// A chain of parents from `i` that reaches `c` also reaches the parent of `c`.
proof fn lemma_under_extends(parents: Seq<Option<usize>>, depths: Seq<nat>, i: int, c: int, p: usize)
    requires
        index_under(parents, depths, i, c),
        parents[c] == Some(p),
        depths[p as int] < depths[c],
    ensures
        index_under(parents, depths, i, p as int),
    decreases depths[i],
{
    assert(index_under(parents, depths, p as int, p as int));
    if i == c {
        assert(index_under(parents, depths, c, p as int));
    } else {
        let q = parents[i].unwrap() as int;
        lemma_under_extends(parents, depths, q, c, p);
        assert(index_under(parents, depths, i, p as int));
    }
}

impl<P> RetainedTree<P> {
    /// Whether a proper ancestor of the element at `index` is one of `indices`.
    pub open spec fn has_ancestor_among(&self, index: int, indices: Seq<usize>) -> bool {
        exists|k: int| 0 <= k < indices.len() && indices[k] != index && self.is_under(index, indices[k] as int)
    }

    /// Reports whether a proper ancestor of the element at `index` is one of `indices`.
    pub fn ancestor_among(&self, index: usize, indices: &[usize]) -> (r: bool)
        requires
            self.wf(),
            index < self.elements_view().len(),
        ensures
            r == self.has_ancestor_among(index as int, indices@),
    {
        let mut current = self.parents[index];
        proof {
            let _ = self.parents@[index as int];
            assert forall|k: int| 0 <= k < indices@.len() && indices@[k] != index && self.is_under(index as int, indices@[k] as int)
                implies (current matches Some(c) && self.is_under(c as int, indices@[k] as int)) by {
            }
            if let Some(c) = current {
                assert(self.is_under(index as int, c as int)) by {
                    lemma_under_extends(self.parents@, self.depths@, index as int, index as int, c);
                }
            }
        }
        loop
            invariant
                self.wf(),
                index < self.elements_view().len(),
                current matches Some(c) ==> c < self.elements_view().len() && c != index && self.is_under(
                    index as int,
                    c as int,
                ),
                forall|k: int|
                    0 <= k < indices@.len() && indices@[k] != index && self.is_under(index as int, indices@[k] as int)
                        ==> (current matches Some(c) && self.is_under(c as int, indices@[k] as int)),
            decreases (match current {
                Some(c) => self.depths@[c as int] + 1,
                None => 0,
            }),
        {
            match current {
                None => {
                    return false;
                },
                Some(c) => {
                    let mut k: usize = 0;
                    while k < indices.len()
                        invariant
                            k <= indices@.len(),
                            c != index,
                            self.is_under(index as int, c as int),
                            forall|m: int| 0 <= m < k ==> indices@[m] != c,
                        decreases indices@.len() - k,
                    {
                        if indices[k] == c {
                            proof {
                                assert(indices@[k as int] != index && self.is_under(index as int, indices@[k as int] as int));
                            }
                            return true;
                        }
                        k = k + 1;
                    }
                    proof {
                        let _ = self.parents@[c as int];
                    }
                    let next = self.parents[c];
                    proof {
                        assert forall|m: int|
                            0 <= m < indices@.len() && indices@[m] != index && self.is_under(index as int, indices@[m] as int)
                                implies (next matches Some(n) && self.is_under(n as int, indices@[m] as int)) by {
                            assert(self.is_under(c as int, indices@[m] as int));
                            assert(indices@[m] != c);
                        }
                        if let Some(n) = next {
                            lemma_under_extends(self.parents@, self.depths@, index as int, c as int, n);
                            if n == index {
                                lemma_under_depth_strict(self.parents@, self.depths@, index as int, c as int);
                            }
                        }
                    }
                    current = next;
                },
            }
        }
    }
}

/// Following parents from a descendant other than the ancestor reaches a strictly smaller depth.
proof fn lemma_under_depth_strict(parents: Seq<Option<usize>>, depths: Seq<nat>, i: int, a: int)
    requires
        index_under(parents, depths, i, a),
        i != a,
    ensures
        depths[i] > depths[a],
{
    let p = parents[i].unwrap() as int;
    lemma_under_depth(parents, depths, p, a);
}

/// What a removal of `scope` keeps holds nothing declared under `scope`.
proof fn lemma_kept_elements_outside<P>(elements: Seq<IdedElement<P>>, declarations: Map<u64, u64>, scope: u64)
    ensures
        forall|m: int|
            0 <= m < kept_elements(elements, declarations, scope).len() ==> !declared_under(
                declarations,
                (#[trigger] kept_elements(elements, declarations, scope)[m]).id,
                scope,
            ),
    decreases elements.len(),
{
    if elements.len() > 0 {
        let rest = elements.drop_last();
        lemma_kept_elements_outside(rest, declarations, scope);
        let kept = kept_elements(elements, declarations, scope);
        let kept_rest = kept_elements(rest, declarations, scope);
        assert forall|m: int| 0 <= m < kept.len() implies !declared_under(declarations, (#[trigger] kept[m]).id, scope) by {
            if m < kept_rest.len() {
                assert(kept[m] == kept_rest[m]);
            }
        }
    }
}

/// No element lies under one of its own descendants: following parent links from an element never comes back to it.
pub proof fn parent_links_are_acyclic<P>(tree: &RetainedTree<P>, i: int, a: int)
    requires
        tree.wf(),
        i != a,
        tree.is_under(i, a),
    ensures
        !tree.is_under(a, i),
{
    lemma_under_depth_strict(tree.parents@, tree.depths@, i, a);
    if tree.is_under(a, i) {
        lemma_under_depth(tree.parents@, tree.depths@, a, i);
    }
}

/// Removing a scope takes out everything declared under it, so a second removal of the same scope finds nothing.
pub proof fn removing_a_scope_leaves_nothing_under_it<P>(before: &RetainedTree<P>, after: &RetainedTree<P>, scope: u64)
    requires
        after.elements_view() == kept_elements(before.elements_view(), before.declarations_view(), scope),
        after.declarations_view() == before.declarations_view(),
    ensures
        after.scope_ids(scope) == Set::<Id>::empty(),
{
    lemma_kept_elements_outside(before.elements_view(), before.declarations_view(), scope);
    assert forall|id: Id| !after.scope_ids(scope).contains(id) by {
        if after.contains(id) {
            let m = choose|m: int| 0 <= m < after.ids().len() && after.ids()[m] == id;
            assert(after.elements@[m].id == id);
        }
    }
    assert(after.scope_ids(scope) =~= Set::<Id>::empty());
}

/// Removing a scope a second time keeps every element the first removal kept: removing a scope twice is removing it
/// once.
pub proof fn removing_a_scope_twice_removes_it_once<P>(elements: Seq<IdedElement<P>>, declarations: Map<u64, u64>, scope: u64)
    ensures
        kept_elements(kept_elements(elements, declarations, scope), declarations, scope) == kept_elements(
            elements,
            declarations,
            scope,
        ),
    decreases elements.len(),
{
    if elements.len() > 0 {
        let rest = kept_elements(elements.drop_last(), declarations, scope);
        removing_a_scope_twice_removes_it_once(elements.drop_last(), declarations, scope);
        if !declared_under(declarations, elements.last().id, scope) {
            let pushed = rest.push(elements.last());
            assert(pushed.drop_last() =~= rest);
            assert(pushed.last() == elements.last());
        }
    }
}

} // verus!
