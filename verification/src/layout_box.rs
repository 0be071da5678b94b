//! Laid-out boxes and the hit test that finds the box under a point.
use vstd::prelude::*;

verus! {

/// The `LayoutBox` struct is one laid-out box: its center, its size, and its laid-out children.
pub struct LayoutBox {
    pub x: i32,
    pub y: i32,
    pub width: u32,
    pub height: u32,
    pub children: Vec<LayoutBox>,
    /// The position among its siblings, or `None` for the root.
    pub index: Option<usize>,
}

/// A `u32` reinterpreted as an `i32`, as the `as` cast does.
pub open spec fn as_i32(value: u32) -> int {
    if value <= i32::MAX {
        value as int
    } else {
        value - 0x1_0000_0000
    }
}

/// Half of `value`, rounded toward zero as integer division does.
pub open spec fn half(value: int) -> int {
    if value >= 0 {
        value / 2
    } else {
        -((-value) / 2)
    }
}

/// Half the box's width, as a signed extent.
pub open spec fn semi_width(b: LayoutBox) -> int {
    half(as_i32(b.width))
}

/// Half the box's height, as a signed extent.
pub open spec fn semi_height(b: LayoutBox) -> int {
    half(as_i32(b.height))
}

/// Whether the point lies strictly inside the box's edges.
pub open spec fn inside(b: LayoutBox, x: int, y: int) -> bool {
    &&& b.x - semi_width(b) < x < b.x + semi_width(b)
    &&& b.y - semi_height(b) < y < b.y + semi_height(b)
}

/// Whether the edges of `b` are representable as `i32`.
pub open spec fn edges_fit(b: LayoutBox) -> bool {
    &&& i32::MIN <= b.x - semi_width(b) <= i32::MAX
    &&& i32::MIN <= b.x + semi_width(b) <= i32::MAX
    &&& i32::MIN <= b.y - semi_height(b) <= i32::MAX
    &&& i32::MIN <= b.y + semi_height(b) <= i32::MAX
}

/// Whether a hit test at the point computes only edges representable as `i32`: those of `b`, and, when `b` contains
/// the point, those of each child it tests, up to the first child that is hit.
pub open spec fn probe_fits(b: LayoutBox, x: int, y: int) -> bool
    decreases b, b.children@.len() + 1,
{
    &&& edges_fit(b)
    &&& inside(b, x, y) ==> probe_fits_from(b, 0, x, y)
}

/// Whether the children of `b` from position `k` on that a hit test tests compute only representable edges.
pub open spec fn probe_fits_from(b: LayoutBox, k: int, x: int, y: int) -> bool
    decreases b, b.children@.len() - k,
{
    if k < 0 || k >= b.children@.len() {
        true
    } else {
        proof {
            assert(decreases_to!(b => b.children));
        }
        &&& probe_fits(b.children@[k], x, y)
        &&& hit(b.children@[k], x, y) is None ==> probe_fits_from(b, k + 1, x, y)
    }
}

/// The box a hit test at the point finds below `b`: the deepest box containing the point, preferring earlier
/// children, or `None` when `b` does not contain it.
pub open spec fn hit(b: LayoutBox, x: int, y: int) -> Option<LayoutBox>
    decreases b, b.children@.len() + 1,
{
    if inside(b, x, y) {
        match hit_from(b, 0, x, y) {
            Some(found) => Some(found),
            None => Some(b),
        }
    } else {
        None
    }
}

/// The first hit among the children of `b` from position `k` on.
pub open spec fn hit_from(b: LayoutBox, k: int, x: int, y: int) -> Option<LayoutBox>
    decreases b, b.children@.len() - k,
{
    if k < 0 || k >= b.children@.len() {
        None
    } else {
        proof {
            assert(decreases_to!(b => b.children));
        }
        match hit(b.children@[k], x, y) {
            Some(found) => Some(found),
            None => hit_from(b, k + 1, x, y),
        }
    }
}

impl LayoutBox {
    /// Returns the box's width.
    pub fn width(&self) -> (r: u32)
        ensures
            r == self.width,
    {
        self.width
    }

    /// Returns the box's height.
    pub fn height(&self) -> (r: u32)
        ensures
            r == self.height,
    {
        self.height
    }
}

/// Halves a signed extent, rounding toward zero.
fn halve(value: i32) -> (r: i32)
    ensures
        r == half(value as int),
{
    value / 2
}

/// Reinterprets a size as a signed extent.
fn signed(value: u32) -> (r: i32)
    ensures
        r == as_i32(value),
{
    let r = value as i32;
    if value <= 0x7fff_ffff {
        assert(r as int == value as int) by (bit_vector)
            requires
                value <= 0x7fff_ffff,
                r == value as i32,
        ;
    } else {
        assert(r as int == value as int - 0x1_0000_0000) by (bit_vector)
            requires
                value > 0x7fff_ffff,
                r == value as i32,
        ;
    }
    r
}

/// Tests collisions with the layout boxes.
///
/// Returns `None` if no element was hit, including when the element has zero size, or the hit element: the deepest
/// box strictly containing the point, preferring earlier children.
pub fn evaluate_hit_test(element: &LayoutBox, x: i32, y: i32) -> (r: Option<&LayoutBox>)
    requires
        probe_fits(*element, x as int, y as int),
    ensures
        match hit(*element, x as int, y as int) {
            Some(found) => r matches Some(b) && *b == found,
            None => r is None,
        },
    decreases element,
{
    let (sw, sh) = (halve(signed(element.width)), halve(signed(element.height)));
    proof {
        assert(sw == semi_width(*element));
        assert(sh == semi_height(*element));
    }
    if (x > (element.x - sw) && x < (element.x + sw)) && (y > (element.y - sh) && y < (element.y + sh)) {
        let mut i: usize = 0;
        while i < element.children.len()
            invariant
                i <= element.children@.len(),
                probe_fits(*element, x as int, y as int),
                probe_fits_from(*element, i as int, x as int, y as int),
                inside(*element, x as int, y as int),
                hit_from(*element, 0, x as int, y as int) == hit_from(*element, i as int, x as int, y as int),
            decreases element.children@.len() - i,
        {
            proof {
                assert(probe_fits(element.children@[i as int], x as int, y as int));
                assert(decreases_to!(*element => element.children));
            }
            match evaluate_hit_test(&element.children[i], x, y) {
                Some(child) => {
                    return Some(child);
                },
                None => {},
            }
            i = i + 1;
        }
        return Some(element);
    }
    None
}

/// A box of zero size contains no point, so a hit test on it finds nothing.
pub proof fn a_zero_size_box_is_never_hit(b: LayoutBox, x: int, y: int)
    requires
        b.width == 0,
        b.height == 0,
    ensures
        hit(b, x, y) is None,
{
}

/// The box a hit test finds strictly contains the point.
pub proof fn a_hit_box_contains_the_point(b: LayoutBox, x: int, y: int)
    ensures
        hit(b, x, y) matches Some(found) ==> inside(found, x, y),
    decreases b, b.children@.len() + 1,
{
    if inside(b, x, y) {
        lemma_hit_from_contains(b, 0, x, y);
    }
}

/// The box a hit test among the children of `b` from position `k` on finds strictly contains the point.
proof fn lemma_hit_from_contains(b: LayoutBox, k: int, x: int, y: int)
    ensures
        hit_from(b, k, x, y) matches Some(found) ==> inside(found, x, y),
    decreases b, b.children@.len() - k,
{
    if 0 <= k < b.children@.len() {
        assert(decreases_to!(b => b.children));
        a_hit_box_contains_the_point(b.children@[k], x, y);
        lemma_hit_from_contains(b, k + 1, x, y);
    }
}

/// The `HitCandidate` struct is one element found under the pointer: its depth, its position in layout order, and its
/// id.
#[derive(Debug, Clone, Copy, PartialEq, Eq, Structural)]
pub struct HitCandidate {
    pub depth: u32,
    pub order: usize,
    pub id: u64,
}

/// Whether `a` lies above `b`: at a greater depth, or at the same depth later in layout order.
pub open spec fn lies_above(a: HitCandidate, b: HitCandidate) -> bool {
    a.depth > b.depth || (a.depth == b.depth && a.order > b.order)
}

/// Whether the candidate `c` takes part in a query that excludes `excluded`, such as a dragged source.
pub open spec fn eligible(c: HitCandidate, excluded: Option<u64>) -> bool {
    excluded != Some(c.id)
}

/// Picks the topmost of the elements under the pointer, skipping `excluded`: the deepest, and among equally deep ones
/// the latest in layout order. Returns its id, or `None` when no candidate is left.
pub fn topmost(candidates: &[HitCandidate], excluded: Option<u64>) -> (r: Option<u64>)
    ensures
        r is None <==> forall|k: int| 0 <= k < candidates@.len() ==> !eligible(#[trigger] candidates@[k], excluded),
        r matches Some(id) ==> exists|k: int|
            0 <= k < candidates@.len() && eligible(candidates@[k], excluded) && candidates@[k].id == id && forall|m: int|
                0 <= m < candidates@.len() && eligible(#[trigger] candidates@[m], excluded) ==> !lies_above(
                    candidates@[m],
                    candidates@[k],
                ),
{
    let mut top: Option<usize> = None;
    let mut i: usize = 0;
    while i < candidates.len()
        invariant
            i <= candidates@.len(),
            match top {
                Some(t) => t < i && eligible(candidates@[t as int], excluded) && forall|m: int|
                    0 <= m < i && eligible(#[trigger] candidates@[m], excluded) ==> !lies_above(
                        candidates@[m],
                        candidates@[t as int],
                    ),
                None => forall|m: int| 0 <= m < i ==> !eligible(#[trigger] candidates@[m], excluded),
            },
        decreases candidates@.len() - i,
    {
        let candidate = candidates[i];
        let skip = match excluded {
            Some(id) => id == candidate.id,
            None => false,
        };
        if !skip {
            match top {
                Some(t) => {
                    let current = candidates[t];
                    if !(current.depth > candidate.depth || (current.depth == candidate.depth && current.order > candidate.order)) {
                        top = Some(i);
                    }
                },
                None => {
                    top = Some(i);
                },
            }
        }
        i = i + 1;
    }
    match top {
        Some(t) => Some(candidates[t].id),
        None => None,
    }
}

/// How a box sizes itself along one axis. `Q` is the fraction a fractional box scales its parent's extent by.
#[derive(Debug, Clone, Copy, PartialEq)]
pub enum Scalings<Q> {
    /// The parent's extent.
    Fill,
    /// A fraction of the parent's extent.
    Fractional { value: Q },
    Fixed { value: u32 },
    /// Its content's extent; content is not measured yet, so nothing.
    Fit,
}

/// Which way a box extends from where it is placed.
#[derive(Debug, Clone, Copy, PartialEq, Eq, Structural)]
pub enum Direction {
    Positive,
    Negative,
}

/// The axis a box places its children along.
#[derive(Debug, Clone, Copy, PartialEq, Eq, Structural)]
pub enum Flow {
    Vertical,
    Horizontal,
}

/// The `LayoutNode` struct is a box to lay out: how it sizes itself, which way it extends, how it places its
/// children, and its children.
pub struct LayoutNode<Q> {
    pub scaling_x: Scalings<Q>,
    pub scaling_y: Scalings<Q>,
    pub direction_x: Direction,
    pub direction_y: Direction,
    pub flow: Flow,
    pub children: Vec<LayoutNode<Q>>,
}

impl<Q> LayoutNode<Q> {
    /// A box of a fixed size that places its children along its longer side.
    pub fn fixed(width: u32, height: u32) -> (r: Self)
        ensures
            r.scaling_x == (Scalings::<Q>::Fixed { value: width }),
            r.scaling_y == (Scalings::<Q>::Fixed { value: height }),
            r.direction_x == Direction::Positive,
            r.direction_y == Direction::Negative,
            r.flow == (if width > height { Flow::Horizontal } else { Flow::Vertical }),
            r.children@.len() == 0,
    {
        LayoutNode {
            scaling_x: Scalings::Fixed { value: width },
            scaling_y: Scalings::Fixed { value: height },
            direction_x: Direction::Positive,
            direction_y: Direction::Negative,
            flow: if width > height { Flow::Horizontal } else { Flow::Vertical },
            children: Vec::new(),
        }
    }

    /// A box that fills its parent and places its children vertically.
    pub fn new() -> (r: Self)
        ensures
            r.scaling_x == Scalings::<Q>::Fill,
            r.scaling_y == Scalings::<Q>::Fill,
            r.direction_x == Direction::Positive,
            r.direction_y == Direction::Negative,
            r.flow == Flow::Vertical,
            r.children@.len() == 0,
    {
        LayoutNode {
            scaling_x: Scalings::Fill,
            scaling_y: Scalings::Fill,
            direction_x: Direction::Positive,
            direction_y: Direction::Negative,
            flow: Flow::Vertical,
            children: Vec::new(),
        }
    }

    /// Adds `child` after the box's other children.
    pub fn add_child(&mut self, child: Self)
        ensures
            final(self).children@ == old(self).children@.push(child),
            final(self).scaling_x == old(self).scaling_x,
            final(self).scaling_y == old(self).scaling_y,
            final(self).direction_x == old(self).direction_x,
            final(self).direction_y == old(self).direction_y,
            final(self).flow == old(self).flow,
    {
        self.children.push(child);
    }
}

/// Whether `extent` is what `scaling` gives a box inside a parent extent of `parent`, where `fraction` scales an extent
/// by a fraction.
pub open spec fn scaled_extent<Q, S: Fn(u32, Q) -> u32>(scaling: Scalings<Q>, parent: u32, fraction: S, extent: u32) -> bool {
    match scaling {
        Scalings::Fill => extent == parent,
        Scalings::Fractional { value } => fraction.ensures((parent, value), extent),
        Scalings::Fixed { value } => extent == value,
        Scalings::Fit => extent == 0,
    }
}

/// An extent taken in `direction`, as a signed `i32` that wraps like the integer type.
pub open spec fn directed(direction: Direction, extent: u32) -> i32 {
    match direction {
        Direction::Positive => as_i32(extent) as i32,
        Direction::Negative => 0i32.wrapping_sub(as_i32(extent) as i32),
    }
}

/// The component of `value` along a flow component `flow`, which is `0` or `1`.
pub open spec fn along(value: i32, flow: i32) -> i32 {
    if flow == 1 {
        value
    } else {
        0
    }
}

/// The unit steps a box places its children with: down for a vertical flow, right for a horizontal one.
pub open spec fn flow_step(flow: Flow) -> (i32, i32) {
    match flow {
        Flow::Vertical => (0, 1),
        Flow::Horizontal => (1, 0),
    }
}

/// Where the next sibling is placed once `node`, laid out as `laid` from `pointers` along `flow`, has been placed.
pub open spec fn advanced<Q>(node: LayoutNode<Q>, laid: LayoutBox, pointers: (i32, i32), flow: (i32, i32)) -> (i32, i32) {
    (
        pointers.0.wrapping_add(along(directed(node.direction_x, laid.width), flow.0)),
        pointers.1.wrapping_add(along(directed(node.direction_y, laid.height), flow.1)),
    )
}

/// Where the `k`-th of `children` is placed, the first at `start` and each after the one before it, laid out as
/// `laid`.
pub open spec fn child_pointers<Q>(
    children: Seq<LayoutNode<Q>>,
    laid: Seq<LayoutBox>,
    start: (i32, i32),
    flow: (i32, i32),
    k: int,
) -> (i32, i32)
    decreases k,
{
    if k <= 0 {
        start
    } else {
        advanced(children[k - 1], laid[k - 1], child_pointers(children, laid, start, flow, k - 1), flow)
    }
}

/// Whether `laid` is `node` laid out inside a parent extent of `extent`, placed from `pointers` along `flow` as its
/// parent's `index`-th child: sized by its scalings, centered half its signed extent past the pointers, with each of
/// its children laid out inside its own extent, one after another along its own flow.
pub open spec fn laid_out<Q, S: Fn(u32, Q) -> u32>(
    node: LayoutNode<Q>,
    extent: (u32, u32),
    pointers: (i32, i32),
    flow: (i32, i32),
    index: usize,
    fraction: S,
    laid: LayoutBox,
) -> bool
    decreases node,
{
    let after = advanced(node, laid, pointers, flow);
    &&& scaled_extent(node.scaling_x, extent.0, fraction, laid.width)
    &&& scaled_extent(node.scaling_y, extent.1, fraction, laid.height)
    &&& laid.x == pointers.0.wrapping_add(half(directed(node.direction_x, laid.width) as int) as i32)
    &&& laid.y == pointers.1.wrapping_add(half(directed(node.direction_y, laid.height) as int) as i32)
    &&& laid.index == Some(index)
    &&& laid.children@.len() == node.children@.len()
    &&& forall|i: int|
        0 <= i < node.children@.len() ==> {
            proof {
                assert(decreases_to!(node => node.children));
            }
            laid_out(
                node.children@[i],
                (laid.width, laid.height),
                child_pointers(node.children@, laid.children@, after, flow_step(node.flow), i),
                flow_step(node.flow),
                i as usize,
                fraction,
                #[trigger] laid.children@[i],
            )
        }
}

/// The extent a root box takes: a fixed one its own, any other nothing.
pub open spec fn root_extent<Q>(scaling: Scalings<Q>) -> u32 {
    match scaling {
        Scalings::Fixed { value } => value,
        _ => 0,
    }
}

/// Where a root box of `extent` starts placing its children: at its edge opposite `direction`.
pub open spec fn root_pointer(direction: Direction, extent: u32) -> i32 {
    match direction {
        Direction::Positive => (-half(as_i32(extent))) as i32,
        Direction::Negative => half(as_i32(extent)) as i32,
    }
}

/// Whether `laid` is `root` laid out: centered at the origin with its fixed extent, and its children laid out inside
/// that extent one after another along its flow, starting from its edge.
pub open spec fn laid_out_root<Q, S: Fn(u32, Q) -> u32>(root: LayoutNode<Q>, fraction: S, laid: LayoutBox) -> bool {
    let width = root_extent(root.scaling_x);
    let height = root_extent(root.scaling_y);
    let start = (root_pointer(root.direction_x, width), root_pointer(root.direction_y, height));
    &&& laid.x == 0
    &&& laid.y == 0
    &&& laid.width == width
    &&& laid.height == height
    &&& laid.index is None
    &&& laid.children@.len() == root.children@.len()
    &&& forall|i: int|
        0 <= i < root.children@.len() ==> laid_out(
            root.children@[i],
            (width, height),
            child_pointers(root.children@, laid.children@, start, flow_step(root.flow), i),
            flow_step(root.flow),
            i as usize,
            fraction,
            #[trigger] laid.children@[i],
        )
}

/// The pointers of the first `k` children do not depend on boxes laid out after them.
proof fn lemma_child_pointers_prefix<Q>(
    children: Seq<LayoutNode<Q>>,
    laid: Seq<LayoutBox>,
    extra: LayoutBox,
    start: (i32, i32),
    flow: (i32, i32),
    k: int,
)
    requires
        k <= laid.len(),
    ensures
        child_pointers(children, laid.push(extra), start, flow, k) == child_pointers(children, laid, start, flow, k),
    decreases k,
{
    if k > 0 {
        lemma_child_pointers_prefix(children, laid, extra, start, flow, k - 1);
        assert(laid.push(extra)[k - 1] == laid[k - 1]);
    }
}

/// The extent `scaling` gives a box inside a parent extent of `parent`.
fn scale<Q: Copy, S: Fn(u32, Q) -> u32>(scaling: Scalings<Q>, parent: u32, fraction: &S) -> (r: u32)
    requires
        forall|p: u32, v: Q| fraction.requires((p, v)),
    ensures
        scaled_extent(scaling, parent, *fraction, r),
{
    match scaling {
        Scalings::Fill => parent,
        Scalings::Fractional { value } => fraction(parent, value),
        Scalings::Fixed { value } => value,
        Scalings::Fit => 0,
    }
}

/// An extent taken in `direction`.
fn direct(direction: Direction, extent: u32) -> (r: i32)
    ensures
        r == directed(direction, extent),
{
    let signed_extent = signed(extent);
    match direction {
        Direction::Positive => signed_extent,
        Direction::Negative => 0i32.wrapping_sub(signed_extent),
    }
}

/// The unit steps a box places its children with.
fn step_of(flow: Flow) -> (r: (i32, i32))
    ensures
        r == flow_step(flow),
{
    match flow {
        Flow::Vertical => (0, 1),
        Flow::Horizontal => (1, 0),
    }
}

/// Lays out `this` inside a parent extent of `extent`, placed from `pointers` along `flow` as its parent's `index`-th
/// child, and returns it with where the next sibling is placed.
fn evaluate_layout_internal<Q: Copy, S: Fn(u32, Q) -> u32>(
    this: &LayoutNode<Q>,
    extent: (u32, u32),
    pointers: (i32, i32),
    flow: (i32, i32),
    index: usize,
    fraction: &S,
) -> (r: (LayoutBox, (i32, i32)))
    requires
        forall|p: u32, v: Q| fraction.requires((p, v)),
        flow.0 == 0 || flow.0 == 1,
        flow.1 == 0 || flow.1 == 1,
    ensures
        laid_out(*this, extent, pointers, flow, index, *fraction, r.0),
        r.1 == advanced(*this, r.0, pointers, flow),
    decreases this,
{
    let (parent_width, parent_height) = extent;
    let (pointer_x, pointer_y) = pointers;
    let (flow_x, flow_y) = flow;
    let width = scale(this.scaling_x, parent_width, fraction);
    let height = scale(this.scaling_y, parent_height, fraction);
    let signed_width = direct(this.direction_x, width);
    let signed_height = direct(this.direction_y, height);
    let x = pointer_x.wrapping_add(halve(signed_width));
    let y = pointer_y.wrapping_add(halve(signed_height));
    let next_x = pointer_x.wrapping_add(signed_width * flow_x);
    let next_y = pointer_y.wrapping_add(signed_height * flow_y);
    proof {
        assert(signed_width * flow_x == along(signed_width, flow_x));
        assert(signed_height * flow_y == along(signed_height, flow_y));
    }
    let child_flow = step_of(this.flow);
    let ghost start = (next_x, next_y);
    let mut children: Vec<LayoutBox> = Vec::with_capacity(this.children.len());
    let mut next = (next_x, next_y);
    let mut i: usize = 0;
    while i < this.children.len()
        invariant
            forall|p: u32, v: Q| fraction.requires((p, v)),
            child_flow == flow_step(this.flow),
            i <= this.children@.len(),
            children@.len() == i,
            next == child_pointers(this.children@, children@, start, child_flow, i as int),
            forall|k: int|
                0 <= k < i ==> laid_out(
                    this.children@[k],
                    (width, height),
                    child_pointers(this.children@, children@, start, child_flow, k),
                    child_flow,
                    k as usize,
                    *fraction,
                    #[trigger] children@[k],
                ),
        decreases this.children@.len() - i,
    {
        proof {
            assert(decreases_to!(*this => this.children));
        }
        let (layout, after) = evaluate_layout_internal(&this.children[i], (width, height), next, child_flow, i, fraction);
        let ghost before = children@;
        children.push(layout);
        proof {
            assert forall|k: int| 0 <= k <= i implies #[trigger] child_pointers(this.children@, children@, start, child_flow, k)
                == child_pointers(this.children@, before, start, child_flow, k) by {
                lemma_child_pointers_prefix(this.children@, before, layout, start, child_flow, k);
            }
            assert(children@[i as int] == layout);
            assert forall|k: int| 0 <= k < i + 1 implies laid_out(
                this.children@[k],
                (width, height),
                child_pointers(this.children@, children@, start, child_flow, k),
                child_flow,
                k as usize,
                *fraction,
                #[trigger] children@[k],
            ) by {
                if k < i {
                    assert(children@[k] == before[k]);
                }
            }
            lemma_child_pointers_prefix(this.children@, before, layout, start, child_flow, i as int);
            assert(child_pointers(this.children@, children@, start, child_flow, i + 1) == advanced(
                this.children@[i as int],
                layout,
                child_pointers(this.children@, children@, start, child_flow, i as int),
                child_flow,
            ));
        }
        next = after;
        i = i + 1;
    }
    let laid = LayoutBox { x, y, width, height, children, index: Some(index) };
    proof {
        assert(laid.children@ == children@);
    }
    (laid, (next_x, next_y))
}

/// Lays out `root` and its descendants, where `fraction` scales an extent by a fractional box's fraction.
///
/// The root is centered at the origin with its fixed extent, or none. Each child is sized inside its parent's extent
/// and placed from where the sibling before it ended, along its parent's flow; positions wrap like `i32` arithmetic
/// when they do not fit.
pub fn evaluate_layout<Q: Copy, S: Fn(u32, Q) -> u32>(root: &LayoutNode<Q>, fraction: &S) -> (r: LayoutBox)
    requires
        forall|p: u32, v: Q| fraction.requires((p, v)),
    ensures
        laid_out_root(*root, *fraction, r),
{
    let width = match root.scaling_x {
        Scalings::Fixed { value } => value,
        _ => 0,
    };
    let height = match root.scaling_y {
        Scalings::Fixed { value } => value,
        _ => 0,
    };
    let pointer_x = match root.direction_x {
        Direction::Positive => -halve(signed(width)),
        Direction::Negative => halve(signed(width)),
    };
    let pointer_y = match root.direction_y {
        Direction::Positive => -halve(signed(height)),
        Direction::Negative => halve(signed(height)),
    };
    let flow = step_of(root.flow);
    let ghost start = (pointer_x, pointer_y);
    let mut children: Vec<LayoutBox> = Vec::with_capacity(root.children.len());
    let mut pointers = (pointer_x, pointer_y);
    let mut i: usize = 0;
    while i < root.children.len()
        invariant
            forall|p: u32, v: Q| fraction.requires((p, v)),
            flow == flow_step(root.flow),
            width == root_extent(root.scaling_x),
            height == root_extent(root.scaling_y),
            start == (root_pointer(root.direction_x, width), root_pointer(root.direction_y, height)),
            i <= root.children@.len(),
            children@.len() == i,
            pointers == child_pointers(root.children@, children@, start, flow, i as int),
            forall|k: int|
                0 <= k < i ==> laid_out(
                    root.children@[k],
                    (width, height),
                    child_pointers(root.children@, children@, start, flow, k),
                    flow,
                    k as usize,
                    *fraction,
                    #[trigger] children@[k],
                ),
        decreases root.children@.len() - i,
    {
        let (layout, after) = evaluate_layout_internal(&root.children[i], (width, height), pointers, flow, i, fraction);
        let ghost before = children@;
        children.push(layout);
        proof {
            assert forall|k: int| 0 <= k <= i implies #[trigger] child_pointers(root.children@, children@, start, flow, k)
                == child_pointers(root.children@, before, start, flow, k) by {
                lemma_child_pointers_prefix(root.children@, before, layout, start, flow, k);
            }
            assert(children@[i as int] == layout);
            assert forall|k: int| 0 <= k < i + 1 implies laid_out(
                root.children@[k],
                (width, height),
                child_pointers(root.children@, children@, start, flow, k),
                flow,
                k as usize,
                *fraction,
                #[trigger] children@[k],
            ) by {
                if k < i {
                    assert(children@[k] == before[k]);
                }
            }
        }
        pointers = after;
        i = i + 1;
    }
    LayoutBox { x: 0, y: 0, width, height, children, index: None }
}

} // verus!
