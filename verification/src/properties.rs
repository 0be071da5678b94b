//! Checks on the properties components set.
use vstd::prelude::*;

use crate::context::{slot_path, slot_path_of, ElementKey};
use crate::evaluation_context::EvaluationContext;
use crate::retained_tree::RetainedTree;

verus! {

/// Checks that RGBA image data holds exactly `width * height * 4` bytes. The caller panics when it does not.
pub fn assert_rgba_len(width: u32, height: u32, pixels: &[u8]) -> (r: bool)
    ensures
        r == (pixels@.len() == width * height * 4),
{
    let w: u128 = width as u128;
    let h: u128 = height as u128;
    assert(w * h <= u32::MAX * u32::MAX) by (nonlinear_arith)
        requires
            w <= u32::MAX,
            h <= u32::MAX,
    ;
    let expected: u128 = w * h * 4;
    pixels.len() as u128 == expected
}

/// Declares the element in the slot `key` of the context `ctx`: the tree creates it with `create` when it does not hold
/// it yet, under the element `ctx` attaches declarations to. Returns the new element's context, and the index of the
/// element when this declaration created it, so the caller sets up its properties once.
///
/// A declaration of an element the tree already holds keeps it and its properties; a key declared twice in one frame,
/// or under a parent the tree no longer holds, creates nothing.
pub fn declare<C, P>(
    ctx: &EvaluationContext<C>,
    key: ElementKey,
    tree: &mut RetainedTree<P>,
    create: impl FnOnce(u64) -> P,
) -> (r: (EvaluationContext<C>, Option<usize>))
    requires
        old(tree).wf(),
        old(tree).revisions_view().revision < u64::MAX,
        old(tree).next_content_id_view() < u64::MAX,
        old(tree).next_serial_view() < u32::MAX,
        create.requires(((old(tree).next_content_id_view() + 1) as u64,)),
    ensures
        final(tree).wf(),
        ({
            let id = slot_path_of(ctx.path, key@);
            &&& r.0.id == id
            &&& r.0.parent == Some(id)
            &&& r.0.path == id
            &&& r.0.owner == ctx.owner
            &&& r.1 == if (ctx.parent matches Some(p) && !old(tree).contains(p)) || old(tree).declared_view().contains(id)
                || old(tree).contains(id) {
                None
            } else {
                Some(old(tree).elements_view().len() as usize)
            }
            &&& r.1 matches Some(index) ==> final(tree).elements_view()[index as int].id == id
        }),
{
    let id = slot_path(ctx.path, key);
    let ghost before = tree.elements_view();
    proof {
        tree.lemma_elements_fit();
    }
    let created = tree.add_element(ctx.parent, ctx.path, id, create);
    proof {
        if let Some(index) = created {
            let els = tree.elements_view();
            tree.lemma_elements_fit();
            assert(els.len() == before.len() + 1);
            assert(index as int == before.len());
            assert(els[els.len() - 1] == els.last());
            assert(els[index as int].id == id);
        }
    }
    (EvaluationContext::new(id, Some(id), id, ctx.owner), created)
}

/// The `ElementSlot` struct names one slot of a context, which a declaration fills: the context declared from and the
/// slot's key.
pub struct ElementSlot<'a, C> {
    pub parent: &'a EvaluationContext<C>,
    pub key: ElementKey,
}

impl<C> EvaluationContext<C> {
    /// The slot `key` of this context, ready to be filled by a declaration.
    pub fn element<'a>(&'a self, key: ElementKey) -> (r: ElementSlot<'a, C>)
        ensures
            *r.parent == *self,
            r.key == key,
    {
        ElementSlot { parent: self, key }
    }
}

impl<'a, C> ElementSlot<'a, C> {
    /// Declares the element this slot names, as [`declare`] does from the slot's context with the slot's key.
    pub fn declare<P>(self, tree: &mut RetainedTree<P>, create: impl FnOnce(u64) -> P) -> (r: (
        EvaluationContext<C>,
        Option<usize>,
    ))
        requires
            old(tree).wf(),
            old(tree).revisions_view().revision < u64::MAX,
            old(tree).next_content_id_view() < u64::MAX,
            old(tree).next_serial_view() < u32::MAX,
            create.requires(((old(tree).next_content_id_view() + 1) as u64,)),
        ensures
            final(tree).wf(),
            ({
                let id = slot_path_of(self.parent.path, self.key@);
                &&& r.0.id == id
                &&& r.0.parent == Some(id)
                &&& r.0.path == id
                &&& r.0.owner == self.parent.owner
                &&& r.1 == if (self.parent.parent matches Some(p) && !old(tree).contains(p)) || old(
                    tree,
                ).declared_view().contains(id) || old(tree).contains(id) {
                    None
                } else {
                    Some(old(tree).elements_view().len() as usize)
                }
                &&& r.1 matches Some(index) ==> final(tree).elements_view()[index as int].id == id
            }),
    {
        declare(self.parent, self.key, tree, create)
    }
}

} // verus!
