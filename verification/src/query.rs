//! Relationship-aware lookup over a snapshot of laid-out elements.
use vstd::prelude::*;

use crate::element::{ElementHandle, Id};
use crate::retained_tree::child_ids;

verus! {

/// The identities of `elements`, in order.
pub open spec fn ids_of<T: ElementHandle>(elements: Seq<T>) -> Seq<Id> {
    elements.map_values(|e: T| e.spec_id())
}

/// The first position of `id` in `ids`, or `None` when `ids` does not hold it.
pub open spec fn position_of(ids: Seq<Id>, id: Id) -> Option<int> {
    if exists|i: int| 0 <= i < ids.len() && ids[i] == id {
        Some(choose|i: int| 0 <= i < ids.len() && ids[i] == id && forall|m: int| 0 <= m < i ==> ids[m] != id)
    } else {
        None
    }
}

/// The child of each relation, in order.
pub open spec fn recorded_children(relations: Seq<(Id, Id)>) -> Seq<Id> {
    relations.map_values(|r: (Id, Id)| r.1)
}

/// The recorded parent of `child`: the parent of the first relation that names it as the child.
pub open spec fn recorded_parent(relations: Seq<(Id, Id)>, child: Id) -> Option<Id> {
    match position_of(recorded_children(relations), child) {
        Some(a) => Some(relations[a].0),
        None => None,
    }
}

/// The positions in `ids` of the recorded children of `parent` that the snapshot holds, in relation order.
pub open spec fn resolved_children(ids: Seq<Id>, relations: Seq<(Id, Id)>, parent: Id) -> Seq<int>
    decreases relations.len(),
{
    if relations.len() == 0 {
        Seq::empty()
    } else {
        let rest = resolved_children(ids, relations.drop_last(), parent);
        let last = relations.last();
        if last.0 == parent && position_of(ids, last.1) is Some {
            rest.push(position_of(ids, last.1).unwrap())
        } else {
            rest
        }
    }
}

/// The first position `i` with `ids[i] == id`, once every earlier position differs.
proof fn lemma_position_of(ids: Seq<Id>, id: Id, i: int)
    requires
        0 <= i < ids.len(),
        ids[i] == id,
        forall|m: int| 0 <= m < i ==> ids[m] != id,
    ensures
        position_of(ids, id) == Some(i),
{
    let c = choose|c: int| 0 <= c < ids.len() && ids[c] == id && forall|m: int| 0 <= m < c ==> ids[m] != id;
    if c < i {
        assert(ids[c] != id);
    } else if c > i {
        assert(ids[i] != id);
    }
}

/// The `Fetcher` struct provides relationship-aware lookup over a layout element snapshot.
pub struct Fetcher<'a, T> {
    pub elements: &'a [T],
    pub relation_map: &'a [(Id, Id)],
}

/// The `ElementResult` struct provides navigation from one resolved layout element.
pub struct ElementResult<'a, T> {
    element: &'a T,
    fetcher: &'a Fetcher<'a, T>,
}

/// The `ParentResult` struct provides safe lookup of an element's recorded parent.
pub struct ParentResult<'a, T> {
    id: Id,
    fetcher: &'a Fetcher<'a, T>,
}

/// The `ChildrenResult` struct provides traversal of an element's recorded children.
pub struct ChildrenResult<'a, T> {
    parent: Id,
    fetcher: &'a Fetcher<'a, T>,
}

impl<'a, T: ElementHandle> ElementResult<'a, T> {
    /// The resolved element.
    pub closed spec fn element_view(&self) -> T {
        *self.element
    }

    /// The fetcher this result navigates.
    pub closed spec fn fetcher_view(&self) -> Fetcher<'a, T> {
        *self.fetcher
    }

    /// Returns the resolved element.
    pub fn element(self) -> (r: &'a T)
        ensures
            *r == self.element_view(),
    {
        self.element
    }

    /// Returns the element's recorded parent: the parent of the first relation that names it as the child.
    pub fn parent(&self) -> (r: Option<ParentResult<'a, T>>)
        ensures
            match recorded_parent(self.fetcher_view().relation_map@, self.element_view().spec_id()) {
                Some(p) => r matches Some(result) && result.id_view() == p && result.fetcher_view()
                    == self.fetcher_view(),
                None => r is None,
            },
    {
        let id = self.element.id();
        let relations = self.fetcher.relation_map;
        let ghost children = recorded_children(relations@);
        let mut a: usize = 0;
        while a < relations.len()
            invariant
                a <= relations@.len(),
                children == recorded_children(relations@),
                relations@ == self.fetcher_view().relation_map@,
                id == self.element_view().spec_id(),
                forall|m: int| 0 <= m < a ==> children[m] != id,
            decreases relations@.len() - a,
        {
            if relations[a].1 == id {
                proof {
                    assert(children[a as int] == id);
                    lemma_position_of(children, id, a as int);
                    assert(recorded_parent(relations@, id) == Some(relations@[a as int].0));
                    assert(relations@ == self.fetcher_view().relation_map@);
                    assert(id == self.element_view().spec_id());
                }
                return Some(ParentResult { id: relations[a].0, fetcher: self.fetcher });
            }
            a = a + 1;
        }
        None
    }

    /// Returns the element's recorded children.
    pub fn children(&self) -> (r: ChildrenResult<'a, T>)
        ensures
            r.parent_view() == self.element_view().spec_id(),
            r.fetcher_view() == self.fetcher_view(),
    {
        ChildrenResult { parent: self.element.id(), fetcher: self.fetcher }
    }
}

impl<'a, T: ElementHandle> ElementHandle for ElementResult<'a, T> {
    open spec fn spec_id(&self) -> Id {
        self.element_view().spec_id()
    }

    fn id(&self) -> (r: Id) {
        self.element.id()
    }
}

impl<'a, T: ElementHandle> ParentResult<'a, T> {
    /// The recorded parent identity.
    pub closed spec fn id_view(&self) -> Id {
        self.id
    }

    /// The fetcher this result navigates.
    pub closed spec fn fetcher_view(&self) -> Fetcher<'a, T> {
        *self.fetcher
    }

    /// Returns the parent element when it is present in the fetched snapshot.
    pub fn element(&self) -> (r: Option<ElementResult<'a, T>>)
        ensures
            match position_of(ids_of(self.fetcher_view().elements@), self.id_view()) {
                Some(i) => r matches Some(result) && result.element_view() == self.fetcher_view().elements@[i]
                    && result.fetcher_view() == self.fetcher_view(),
                None => r is None,
            },
    {
        self.fetcher.get(self.id)
    }

    /// Returns the recorded parent identity even when its element is absent.
    pub fn id(&self) -> (r: Id)
        ensures
            r == self.id_view(),
    {
        self.id
    }
}

impl<'a, T: ElementHandle> ChildrenResult<'a, T> {
    /// The parent whose children this result lists.
    pub closed spec fn parent_view(&self) -> Id {
        self.parent
    }

    /// The fetcher this result navigates.
    pub closed spec fn fetcher_view(&self) -> Fetcher<'a, T> {
        *self.fetcher
    }

    /// Returns the recorded children that the snapshot holds, in relation order.
    pub fn elements(&self) -> (r: Vec<ElementResult<'a, T>>)
        ensures
            ({
                let positions = resolved_children(
                    ids_of(self.fetcher_view().elements@),
                    self.fetcher_view().relation_map@,
                    self.parent_view(),
                );
                &&& r@.len() == positions.len()
                &&& forall|k: int|
                    0 <= k < r@.len() ==> (#[trigger] r@[k]).element_view() == self.fetcher_view().elements@[positions[k]]
                        && r@[k].fetcher_view() == self.fetcher_view()
            }),
    {
        let relations = self.fetcher.relation_map;
        let ghost ids = ids_of(self.fetcher.elements@);
        let mut found: Vec<ElementResult<'a, T>> = Vec::new();
        let mut a: usize = 0;
        while a < relations.len()
            invariant
                a <= relations@.len(),
                relations@ == self.fetcher_view().relation_map@,
                ids == ids_of(self.fetcher_view().elements@),
                found@.len() == resolved_children(ids, relations@.take(a as int), self.parent).len(),
                forall|k: int|
                    0 <= k < found@.len() ==> (#[trigger] found@[k]).element_view() == self.fetcher_view().elements@[resolved_children(
                        ids,
                        relations@.take(a as int),
                        self.parent,
                    )[k]] && found@[k].fetcher_view() == self.fetcher_view(),
            decreases relations@.len() - a,
        {
            let (parent, child) = relations[a];
            proof {
                assert(relations@.take(a + 1).drop_last() =~= relations@.take(a as int));
                assert(relations@.take(a + 1).last() == relations@[a as int]);
            }
            if parent == self.parent {
                match self.fetcher.get(child) {
                    Some(element) => found.push(element),
                    None => {},
                }
            }
            a = a + 1;
        }
        proof {
            assert(relations@.take(relations@.len() as int) =~= relations@);
        }
        found
    }

    /// Returns the ids of the recorded children, including those the snapshot does not hold, in relation order.
    pub fn ids(&self) -> (r: Vec<Id>)
        ensures
            r@ == child_ids(self.fetcher_view().relation_map@, self.parent_view()),
    {
        let relations = self.fetcher.relation_map;
        let mut found: Vec<Id> = Vec::new();
        let mut a: usize = 0;
        while a < relations.len()
            invariant
                a <= relations@.len(),
                relations@ == self.fetcher_view().relation_map@,
                found@ == child_ids(relations@.take(a as int), self.parent),
            decreases relations@.len() - a,
        {
            let (parent, child) = relations[a];
            proof {
                assert(relations@.take(a + 1).drop_last() =~= relations@.take(a as int));
                assert(relations@.take(a + 1).last() == relations@[a as int]);
            }
            if parent == self.parent {
                found.push(child);
            }
            a = a + 1;
        }
        proof {
            assert(relations@.take(relations@.len() as int) =~= relations@);
        }
        found
    }
}

impl<'a, T: ElementHandle> Fetcher<'a, T> {
    /// Returns the first element of the snapshot with identity `id`.
    pub fn get(&'a self, id: Id) -> (r: Option<ElementResult<'a, T>>)
        ensures
            match position_of(ids_of(self.elements@), id) {
                Some(i) => r matches Some(result) && result.element_view() == self.elements@[i]
                    && result.fetcher_view() == *self,
                None => r is None,
            },
    {
        let ghost ids = ids_of(self.elements@);
        let mut i: usize = 0;
        while i < self.elements.len()
            invariant
                i <= self.elements@.len(),
                ids == ids_of(self.elements@),
                forall|m: int| 0 <= m < i ==> ids[m] != id,
            decreases self.elements@.len() - i,
        {
            let element = &self.elements[i];
            if element.id() == id {
                proof {
                    lemma_position_of(ids, id, i as int);
                }
                return Some(ElementResult { element, fetcher: self });
            }
            i = i + 1;
        }
        None
    }
}

/// An identity that occurs in `ids` has a first position there.
proof fn lemma_first_position(ids: Seq<Id>, id: Id, i: int)
    requires
        0 <= i < ids.len(),
        ids[i] == id,
    ensures
        exists|j: int| 0 <= j < ids.len() && ids[j] == id && forall|m: int| 0 <= m < j ==> ids[m] != id,
    decreases i,
{
    if exists|m: int| 0 <= m < i && ids[m] == id {
        let m = choose|m: int| 0 <= m < i && ids[m] == id;
        lemma_first_position(ids, id, m);
    } else {
        assert(forall|m: int| 0 <= m < i ==> ids[m] != id);
    }
}

/// A position that `position_of` gives holds the identity looked up.
proof fn lemma_position_of_holds(ids: Seq<Id>, id: Id)
    ensures
        position_of(ids, id) matches Some(p) ==> 0 <= p < ids.len() && ids[p] == id,
{
    if exists|i: int| 0 <= i < ids.len() && ids[i] == id {
        let i = choose|i: int| 0 <= i < ids.len() && ids[i] == id;
        lemma_first_position(ids, id, i);
    }
}

/// Filtering a sequence with one more item at its end filters the rest and keeps the item when it passes.
proof fn lemma_filter_push<A>(s: Seq<A>, x: A, pred: spec_fn(A) -> bool)
    ensures
        s.push(x).filter(pred) == if pred(x) {
            s.filter(pred).push(x)
        } else {
            s.filter(pred)
        },
{
    reveal(Seq::filter);
    assert(s.push(x).drop_last() =~= s);
}

/// The recorded child at each resolved position is the child the relations name there, kept when the snapshot holds
/// it: resolving the children of `parent` is listing their ids and skipping those the snapshot does not hold.
proof fn lemma_resolved_children_ids(ids: Seq<Id>, relations: Seq<(Id, Id)>, parent: Id)
    ensures
        resolved_children(ids, relations, parent).map_values(|p: int| ids[p]) == child_ids(relations, parent).filter(
            |c: Id| position_of(ids, c) is Some,
        ),
        forall|k: int|
            0 <= k < resolved_children(ids, relations, parent).len() ==> 0 <= #[trigger] resolved_children(
                ids,
                relations,
                parent,
            )[k] < ids.len(),
    decreases relations.len(),
{
    let held = |c: Id| position_of(ids, c) is Some;
    if relations.len() == 0 {
        reveal(Seq::filter);
        assert(resolved_children(ids, relations, parent).map_values(|p: int| ids[p]) =~= Seq::<Id>::empty());
    } else {
        let rest = relations.drop_last();
        let last = relations.last();
        lemma_resolved_children_ids(ids, rest, parent);
        let prior = resolved_children(ids, rest, parent);
        let names = child_ids(rest, parent);
        if last.0 == parent {
            lemma_filter_push(names, last.1, held);
            lemma_position_of_holds(ids, last.1);
            if held(last.1) {
                let p = position_of(ids, last.1).unwrap();
                assert(0 <= p < ids.len() && ids[p] == last.1);
                assert(prior.push(p).map_values(|q: int| ids[q]) =~= prior.map_values(|q: int| ids[q]).push(ids[p]));
            }
        }
    }
}

/// The elements of a children result are exactly its ids that the snapshot holds, in the same order: a recorded child
/// the snapshot no longer holds is skipped, never looked up.
pub proof fn children_elements_are_the_held_ids<'a, T: ElementHandle>(children: ChildrenResult<'a, T>)
    ensures
        ({
            let ids = ids_of(children.fetcher_view().elements@);
            let positions = resolved_children(ids, children.fetcher_view().relation_map@, children.parent_view());
            &&& forall|k: int| 0 <= k < positions.len() ==> 0 <= #[trigger] positions[k] < ids.len()
            &&& positions.map_values(|p: int| ids[p]) == child_ids(
                children.fetcher_view().relation_map@,
                children.parent_view(),
            ).filter(|c: Id| position_of(ids, c) is Some)
        }),
{
    lemma_resolved_children_ids(
        ids_of(children.fetcher_view().elements@),
        children.fetcher_view().relation_map@,
        children.parent_view(),
    );
}

} // verus!
