//! How much of the retained render an evaluation's render can reuse.
//!
//! A render is retained by the engine: while the tree, its layout, and the viewport are unchanged, the same render
//! with the same revision is returned again. Otherwise a new render is built, and the revision counters decide how
//! much of the previous one it patches instead of writing again.
use vstd::prelude::*;

use crate::primitive::RenderRevision;
use crate::retained_tree::Revisions;

verus! {

/// The `RenderedFrom` struct holds what the retained render was built from.
#[derive(Clone, Copy, Debug, PartialEq, Eq, Structural)]
pub struct RenderedFrom {
    pub tree: u64,
    pub placement: u64,
    pub clip: u64,
    pub appearance: u64,
    pub layout: u64,
    /// The revision of the retained render itself.
    pub render: RenderRevision,
}

/// The `LayoutSource` struct holds what identifies the layout a render draws.
#[derive(Clone, Copy, Debug, PartialEq, Eq, Structural)]
pub struct LayoutSource {
    /// The layout's revision, which advances whenever its geometry changes.
    pub revision: u64,
    /// The layout this one differs from only by visual transforms inside the engine's dirty subtrees.
    pub transformed_from: Option<u64>,
}

/// The `RenderPlan` struct says how a new render is built.
#[derive(Clone, Copy, Debug, PartialEq, Eq, Structural)]
pub struct RenderPlan {
    /// The previous render's list of visible elements in depth order still holds.
    pub visibility_unchanged: bool,
    /// Only the dirty subtrees moved, so every other entry is kept where it is.
    pub incremental: bool,
    /// The render the damage of the new one is relative to, if any.
    pub damage_base: Option<RenderRevision>,
    /// The live element identities are kept, as no placement edit happened.
    pub placement_unchanged: bool,
}

/// Whether the retained render can be returned again: it was built from the current tree revision and layout at the
/// same viewport size.
pub open spec fn render_reusable(rendered: Option<RenderedFrom>, tree_revision: u64, layout: u64, same_size: bool) -> bool {
    rendered matches Some(r) && r.tree == tree_revision && r.layout == layout && same_size
}

/// The plan of a new render of `layout` after the retained render `rendered`, if any: `same_size` tells whether the
/// viewport kept its size, `transforms_aligned` whether the engine holds a transform for every element, and `dirty`
/// and `elements` count the elements inside moved subtrees and in the tree.
pub open spec fn render_plan_for(
    rendered: Option<RenderedFrom>,
    current: Revisions,
    layout: LayoutSource,
    same_size: bool,
    transforms_aligned: bool,
    dirty: nat,
    elements: nat,
) -> RenderPlan {
    match rendered {
        Some(r) => RenderPlan {
            visibility_unchanged: r.clip == current.clip && r.layout == layout.revision && same_size,
            incremental: layout.transformed_from == Some(r.layout) && r.clip == current.clip && r.appearance
                == current.appearance && same_size && transforms_aligned && dirty * 4 < elements,
            damage_base: if same_size {
                Some(r.render)
            } else {
                None
            },
            placement_unchanged: r.placement == current.placement,
        },
        None => RenderPlan {
            visibility_unchanged: false,
            incremental: false,
            damage_base: None,
            placement_unchanged: false,
        },
    }
}

/// Reports whether the retained render can be returned again; see [`render_reusable`].
pub fn reuse_render(rendered: Option<RenderedFrom>, tree_revision: u64, layout: u64, same_size: bool) -> (r: bool)
    ensures
        r == render_reusable(rendered, tree_revision, layout, same_size),
{
    match rendered {
        Some(r) => r.tree == tree_revision && r.layout == layout && same_size,
        None => false,
    }
}

/// Plans a new render; see [`render_plan_for`]. Patching stops paying once a quarter of the tree moved, and the new
/// render then writes every entry again.
pub fn render_plan(
    rendered: Option<RenderedFrom>,
    current: Revisions,
    layout: LayoutSource,
    same_size: bool,
    transforms_aligned: bool,
    dirty: usize,
    elements: usize,
) -> (r: RenderPlan)
    ensures
        r == render_plan_for(rendered, current, layout, same_size, transforms_aligned, dirty as nat, elements as nat),
{
    match rendered {
        Some(r) => {
            let few_moved = dirty < elements && (dirty as u128) * 4 < elements as u128;
            let transformed_from_retained = match layout.transformed_from {
                Some(from) => from == r.layout,
                None => false,
            };
            RenderPlan {
                visibility_unchanged: r.clip == current.clip && r.layout == layout.revision && same_size,
                incremental: transformed_from_retained && r.clip == current.clip && r.appearance == current.appearance
                    && same_size && transforms_aligned && few_moved,
                damage_base: if same_size {
                    Some(r.render)
                } else {
                    None
                },
                placement_unchanged: r.placement == current.placement,
            }
        },
        None => RenderPlan { visibility_unchanged: false, incremental: false, damage_base: None, placement_unchanged: false },
    }
}

/// A render after a resize is never relative to the previous one, and patches nothing.
pub proof fn a_resized_viewport_renders_everything_again(
    rendered: Option<RenderedFrom>,
    current: Revisions,
    layout: LayoutSource,
    transforms_aligned: bool,
    dirty: nat,
    elements: nat,
)
    ensures
        render_plan_for(rendered, current, layout, false, transforms_aligned, dirty, elements).damage_base is None,
        !render_plan_for(rendered, current, layout, false, transforms_aligned, dirty, elements).incremental,
        !render_plan_for(rendered, current, layout, false, transforms_aligned, dirty, elements).visibility_unchanged,
        !render_reusable(rendered, current.revision, layout.revision, false),
{
}

/// A new render keeps the previous visible list only when that list still describes what is visible: the retained
/// render was built from the same clip revision and the same layout at the same viewport size; any clip edit, layout
/// change or resize rebuilds it. It patches entries in place only when, besides, appearance is unchanged and the
/// layout moved by transforms alone from the retained one; its damage is relative to the retained render exactly when
/// the size is the same; and it keeps the live identities exactly when no placement edit happened.
pub proof fn a_render_reuses_only_what_its_inputs_left_valid(
    rendered: Option<RenderedFrom>,
    current: Revisions,
    layout: LayoutSource,
    same_size: bool,
    transforms_aligned: bool,
    dirty: nat,
    elements: nat,
)
    ensures
        ({
            let plan = render_plan_for(rendered, current, layout, same_size, transforms_aligned, dirty, elements);
            &&& plan.visibility_unchanged <==> (rendered matches Some(r) && r.clip == current.clip && r.layout
                == layout.revision && same_size)
            &&& plan.incremental ==> (rendered matches Some(r) && r.clip == current.clip && r.appearance
                == current.appearance && layout.transformed_from == Some(r.layout) && same_size && transforms_aligned
                && dirty * 4 < elements)
            &&& (rendered matches Some(r) && r.clip == current.clip && r.appearance == current.appearance
                && layout.transformed_from == Some(r.layout) && same_size && transforms_aligned && dirty * 4 < elements)
                ==> plan.incremental
            &&& plan.damage_base == (if same_size && rendered is Some {
                Some(rendered.unwrap().render)
            } else {
                None
            })
            &&& plan.placement_unchanged <==> (rendered matches Some(r) && r.placement == current.placement)
        }),
{
}

/// Whether the entry `a` draws no later than `b`: by depth, then by position in layout order.
pub open spec fn depth_le(a: (u32, u32), b: (u32, u32)) -> bool {
    a.0 < b.0 || (a.0 == b.0 && a.1 <= b.1)
}

/// Reports whether the entry `a` draws no later than `b`.
fn draws_no_later(a: (u32, u32), b: (u32, u32)) -> (r: bool)
    ensures
        r == depth_le(a, b),
{
    a.0 < b.0 || (a.0 == b.0 && a.1 <= b.1)
}

/// Whether `entries` are in drawing order.
pub open spec fn depth_sorted(entries: Seq<(u32, u32)>) -> bool {
    forall|i: int, j: int| 0 <= i < j < entries.len() ==> depth_le(entries[i], entries[j])
}

/// Orders the visible elements for drawing: `entries` pairs each element's depth with its position in layout order,
/// and the result holds the same entries from the lowest depth up, elements of equal depth in layout order.
pub fn depth_order(entries: &[(u32, u32)]) -> (r: Vec<(u32, u32)>)
    ensures
        depth_sorted(r@),
        r@.to_multiset() == entries@.to_multiset(),
{
    broadcast use vstd::seq_lib::to_multiset_insert;

    let mut sorted: Vec<(u32, u32)> = Vec::new();
    let mut i: usize = 0;
    proof {
        assert(entries@.take(0) =~= Seq::<(u32, u32)>::empty());
        assert(sorted@ =~= Seq::<(u32, u32)>::empty());
    }
    while i < entries.len()
        invariant
            i <= entries@.len(),
            depth_sorted(sorted@),
            sorted@.to_multiset() == entries@.take(i as int).to_multiset(),
        decreases entries@.len() - i,
    {
        let entry = entries[i];
        let mut p: usize = 0;
        while p < sorted.len() && draws_no_later(sorted[p], entry)
            invariant
                p <= sorted@.len(),
                forall|k: int| 0 <= k < p ==> depth_le(#[trigger] sorted@[k], entry),
            decreases sorted@.len() - p,
        {
            p = p + 1;
        }
        let ghost before = sorted@;
        sorted.insert(p, entry);
        proof {
            assert(sorted@ == before.insert(p as int, entry));
            assert forall|a: int, b: int| 0 <= a < b < sorted@.len() implies depth_le(sorted@[a], sorted@[b]) by {
                if p < before.len() {
                    assert(!depth_le(before[p as int], entry));
                }
                if a < p && b > p {
                    assert(depth_le(before[a], entry));
                } else if a == p && b > p {
                    assert(depth_le(before[p as int], before[b - 1]));
                }
            }
            assert(entries@.take(i + 1) =~= entries@.take(i as int).push(entry));
            vstd::seq_lib::to_multiset_build(entries@.take(i as int), entry);
            vstd::seq_lib::to_multiset_insert(before, p as int, entry);
            assert(sorted@.to_multiset() == before.to_multiset().insert(entry));
            assert(entries@.take(i + 1).to_multiset() == entries@.take(i as int).to_multiset().insert(entry));
        }
        i = i + 1;
    }
    proof {
        assert(entries@.take(entries@.len() as int) =~= entries@);
    }
    sorted
}

/// The `RenderCounter` struct issues the revision of each render one engine builds. Revisions only grow, so no two
/// renders of one engine share a revision.
pub struct RenderCounter {
    next: u64,
}

impl RenderCounter {
    /// The revision the next render gets.
    pub closed spec fn next_view(&self) -> u64 {
        self.next
    }

    /// Creates the counter of a new engine, whose first render gets revision 1.
    pub fn new() -> (r: Self)
        ensures
            r.next_view() == 1,
    {
        RenderCounter { next: 1 }
    }

    /// Issues the revision of a new render: the counter's value, which then advances past it, so every later render
    /// gets a newer revision.
    pub fn issue(&mut self) -> (r: RenderRevision)
        requires
            old(self).next_view() < u64::MAX,
        ensures
            r == RenderRevision(old(self).next_view()),
            final(self).next_view() == old(self).next_view() + 1,
    {
        let r = RenderRevision(self.next);
        self.next = self.next + 1;
        r
    }
}

/// Whether the entry `a` draws strictly before `b`.
pub open spec fn depth_lt(a: (u32, u32), b: (u32, u32)) -> bool {
    a.0 < b.0 || (a.0 == b.0 && a.1 < b.1)
}

/// Whether `entries` are in drawing order with no entry twice, as the visible elements are, each at its own position
/// in layout order.
pub open spec fn depth_strictly_sorted(entries: Seq<(u32, u32)>) -> bool {
    forall|i: int, j: int| 0 <= i < j < entries.len() ==> depth_lt(entries[i], entries[j])
}

/// Finds the slot of `entry` in the drawing order `order`, or `None` when it is not visible there.
pub fn depth_slot(order: &[(u32, u32)], entry: (u32, u32)) -> (r: Option<usize>)
    requires
        depth_strictly_sorted(order@),
    ensures
        match r {
            Some(i) => i < order@.len() && order@[i as int] == entry,
            None => !order@.contains(entry),
        },
{
    let mut lo: usize = 0;
    let mut hi: usize = order.len();
    while lo < hi
        invariant
            lo <= hi <= order@.len(),
            depth_strictly_sorted(order@),
            forall|k: int| 0 <= k < lo ==> depth_lt(#[trigger] order@[k], entry),
            forall|k: int| hi <= k < order@.len() ==> depth_lt(entry, #[trigger] order@[k]),
        decreases hi - lo,
    {
        let mid = lo + (hi - lo) / 2;
        let candidate = order[mid];
        if candidate.0 == entry.0 && candidate.1 == entry.1 {
            return Some(mid);
        }
        if draws_no_later(candidate, entry) {
            proof {
                assert forall|k: int| 0 <= k < mid + 1 implies depth_lt(#[trigger] order@[k], entry) by {
                    if k < mid {
                        assert(depth_lt(order@[k], order@[mid as int]));
                    }
                }
            }
            lo = mid + 1;
        } else {
            proof {
                assert forall|k: int| mid <= k < order@.len() implies depth_lt(entry, #[trigger] order@[k]) by {
                    if k > mid {
                        assert(depth_lt(order@[mid as int], order@[k]));
                    }
                }
            }
            hi = mid;
        }
    }
    proof {
        assert forall|k: int| 0 <= k < order@.len() implies order@[k] != entry by {
            if k < lo {
                assert(depth_lt(order@[k], entry));
            } else {
                assert(depth_lt(entry, order@[k]));
            }
        }
    }
    None
}

/// The slot of `entry` in `order`, when it holds it.
pub open spec fn slot_of(order: Seq<(u32, u32)>, entry: (u32, u32)) -> int {
    choose|i: int| 0 <= i < order.len() && order[i] == entry
}

/// The visible list `visible`, drawn in the order `order`, after each moved element in `moved` that stays visible
/// replaced its entry. A moved element is its drawing key, whether it is visible now, and its new entry.
pub open spec fn patched_visible<E>(order: Seq<(u32, u32)>, visible: Seq<E>, moved: Seq<((u32, u32), bool, E)>) -> Seq<E>
    decreases moved.len(),
{
    if moved.len() == 0 {
        visible
    } else {
        let rest = patched_visible(order, visible, moved.drop_last());
        let m = moved.last();
        if m.1 && order.contains(m.0) {
            rest.update(slot_of(order, m.0), m.2)
        } else {
            rest
        }
    }
}

/// Whether some moved element changed visibility: it is visible now but not in `order`, or the other way round.
pub open spec fn visibility_flips<E>(order: Seq<(u32, u32)>, moved: Seq<((u32, u32), bool, E)>) -> bool {
    exists|k: int| 0 <= k < moved.len() && order.contains((#[trigger] moved[k]).0) != moved[k].1
}

/// Writes the new entries of the moved elements that stay visible into `visible`, the visible elements in the drawing
/// order `order`, and reports whether any moved element became visible or hidden. A move keeps its depth, so the order
/// holds unless visibility flipped; then the caller orders the visible elements again.
pub fn patch_visible<E: Copy>(order: &[(u32, u32)], visible: &mut Vec<E>, moved: &[((u32, u32), bool, E)]) -> (flipped:
    bool)
    requires
        depth_strictly_sorted(order@),
        old(visible)@.len() == order@.len(),
    ensures
        flipped == visibility_flips(order@, moved@),
        final(visible)@ == patched_visible(order@, old(visible)@, moved@),
{
    let mut flipped = false;
    let mut k: usize = 0;
    while k < moved.len()
        invariant
            k <= moved@.len(),
            depth_strictly_sorted(order@),
            visible@.len() == order@.len(),
            visible@ == patched_visible(order@, old(visible)@, moved@.take(k as int)),
            flipped == exists|m: int| 0 <= m < k && order@.contains((#[trigger] moved@[m]).0) != moved@[m].1,
        decreases moved@.len() - k,
    {
        let (key, now_visible, entry) = moved[k];
        let slot = depth_slot(order, key);
        proof {
            assert(moved@.take(k + 1).drop_last() =~= moved@.take(k as int));
            assert(moved@.take(k + 1).last() == moved@[k as int]);
            if let Some(i) = slot {
                assert(order@.contains(key));
                let c = slot_of(order@, key);
                assert(0 <= c < order@.len() && order@[c] == key);
                if c != i {
                    if c < i {
                        assert(depth_lt(order@[c], order@[i as int]));
                    } else {
                        assert(depth_lt(order@[i as int], order@[c]));
                    }
                }
            }
        }
        match slot {
            Some(i) => {
                if !now_visible {
                    flipped = true;
                } else {
                    visible.set(i, entry);
                }
            },
            None => {
                if now_visible {
                    flipped = true;
                }
            },
        }
        k = k + 1;
    }
    proof {
        assert(moved@.take(moved@.len() as int) =~= moved@);
    }
    flipped
}

/// The surface list of a render: the serial of every live element, hidden ones included, from the lowest up. The
/// list is made again only when a placement edit may have changed which elements live.
pub fn surface_ids(serials: &[u32]) -> (r: Vec<u32>)
    ensures
        forall|i: int, j: int| 0 <= i < j < r@.len() ==> r@[i] <= r@[j],
        r@.to_multiset() == serials@.to_multiset(),
{
    broadcast use vstd::seq_lib::to_multiset_insert;

    let mut sorted: Vec<u32> = Vec::new();
    let mut i: usize = 0;
    proof {
        assert(serials@.take(0) =~= Seq::<u32>::empty());
        assert(sorted@ =~= Seq::<u32>::empty());
    }
    while i < serials.len()
        invariant
            i <= serials@.len(),
            forall|a: int, b: int| 0 <= a < b < sorted@.len() ==> sorted@[a] <= sorted@[b],
            sorted@.to_multiset() == serials@.take(i as int).to_multiset(),
        decreases serials@.len() - i,
    {
        let serial = serials[i];
        let mut p: usize = 0;
        while p < sorted.len() && sorted[p] <= serial
            invariant
                p <= sorted@.len(),
                forall|k: int| 0 <= k < p ==> #[trigger] sorted@[k] <= serial,
            decreases sorted@.len() - p,
        {
            p = p + 1;
        }
        let ghost before = sorted@;
        sorted.insert(p, serial);
        proof {
            assert(sorted@ == before.insert(p as int, serial));
            assert forall|a: int, b: int| 0 <= a < b < sorted@.len() implies sorted@[a] <= sorted@[b] by {
                if p < before.len() {
                    assert(!(before[p as int] <= serial));
                }
                if a < p && b > p {
                    assert(before[a] <= serial);
                } else if a == p && b > p {
                    assert(before[p as int] <= before[b - 1]);
                }
            }
            assert(serials@.take(i + 1) =~= serials@.take(i as int).push(serial));
            vstd::seq_lib::to_multiset_build(serials@.take(i as int), serial);
            vstd::seq_lib::to_multiset_insert(before, p as int, serial);
        }
        i = i + 1;
    }
    proof {
        assert(serials@.take(serials@.len() as int) =~= serials@);
    }
    sorted
}

} // verus!
