use vstd::prelude::*;

use crate::layout::{
    lemma_pair_le_sum, seq_sum, Direction, LayoutError, Node, MIN_SIZE, SCALE,
};

verus! {

/// The change of proportion that a pointer moved `delta` pixels along a container
/// of `extent` pixels makes, rounded toward zero.
pub open spec fn fraction_of(delta: int, extent: int) -> int {
    if delta >= 0 {
        delta * SCALE / extent
    } else {
        -((-delta) * SCALE / extent)
    }
}

/// The new sizes of a pair that had sizes `a` and `b` when the drag began, after
/// a move of `frac`: the first grows by `frac` and the second shrinks by it, and
/// where one would fall under `MIN_SIZE` it is held there and the other takes the
/// rest of the pair's total.
pub open spec fn clamped_pair(a: int, b: int, frac: int) -> (int, int) {
    if a + frac < MIN_SIZE {
        (MIN_SIZE as int, a + b - MIN_SIZE)
    } else if b - frac < MIN_SIZE {
        (a + b - MIN_SIZE, MIN_SIZE as int)
    } else {
        (a + frac, b - frac)
    }
}

/// The proportion change for a pointer that moved from `from` to `to` along a
/// container of `extent` pixels.
pub fn delta_fraction(from: i32, to: i32, extent: u32) -> (r: i64)
    requires
        extent > 0,
    ensures
        r == fraction_of(to - from, extent as int),
{
    let delta: i64 = to as i64 - from as i64;
    let mag: u64 = if delta >= 0 {
        delta as u64
    } else {
        (-delta) as u64
    };
    proof {
        assert(mag as int * SCALE as int <= 0x1_0000_0000 * 10000) by (nonlinear_arith)
            requires
                mag <= 0x1_0000_0000,
        ;
        assert(mag as int * SCALE as int / extent as int <= mag as int * SCALE as int) by (nonlinear_arith)
            requires
                extent > 0,
                mag >= 0,
        ;
    }
    let q: u64 = mag * (SCALE as u64) / (extent as u64);
    if delta >= 0 {
        q as i64
    } else {
        -(q as i64)
    }
}

/// The sizes of the dragged pair after a move of `frac` from the sizes `anchor_a`
/// and `anchor_b` that it had when the drag began.
pub fn resize_pair(anchor_a: u32, anchor_b: u32, frac: i64) -> (r: (u32, u32))
    requires
        anchor_a >= MIN_SIZE,
        anchor_b >= MIN_SIZE,
        anchor_a + anchor_b <= u32::MAX,
    ensures
        (r.0 as int, r.1 as int) == clamped_pair(anchor_a as int, anchor_b as int, frac as int),
        r.0 + r.1 == anchor_a + anchor_b,
        r.0 >= MIN_SIZE,
        r.1 >= MIN_SIZE,
{
    let total: i128 = anchor_a as i128 + anchor_b as i128;
    let proposed_a: i128 = anchor_a as i128 + frac as i128;
    let proposed_b: i128 = anchor_b as i128 - frac as i128;
    let min: i128 = MIN_SIZE as i128;
    if proposed_a < min {
        (MIN_SIZE, (total - min) as u32)
    } else if proposed_b < min {
        ((total - min) as u32, MIN_SIZE)
    } else {
        (proposed_a as u32, proposed_b as u32)
    }
}

/// Sizes that the clamped pair takes always keep the pair's total, and neither is
/// ever under `MIN_SIZE`, however large the move.
pub proof fn lemma_clamped_pair_conserves(a: int, b: int, frac: int)
    requires
        a >= MIN_SIZE,
        b >= MIN_SIZE,
    ensures
        clamped_pair(a, b, frac).0 + clamped_pair(a, b, frac).1 == a + b,
        clamped_pair(a, b, frac).0 >= MIN_SIZE,
        clamped_pair(a, b, frac).1 >= MIN_SIZE,
{
}

/// What a drag keeps between pointer-down and pointer-up: the divider grasped
/// (`path` to its container and the index of the first pane of the pair), where
/// the pointer was, and the pair's sizes at that moment.
#[derive(Debug)]
pub struct DragContext {
    pub path: Vec<usize>,
    pub sibling_index: usize,
    pub anchor_x: i32,
    pub anchor_y: i32,
    pub anchor_a: u32,
    pub anchor_b: u32,
}

/// Whether a drag is going on.
#[derive(Debug)]
pub enum DragState {
    Idle,
    Dragging(DragContext),
}

/// What a pointer move did.
#[derive(PartialEq, Eq, Structural, Clone, Copy, Debug)]
pub enum MoveOutcome {
    /// The dragged pair got new sizes.
    Resized,
    /// No drag is going on; nothing changed.
    NotDragging,
    /// The dragged container has no extent along its axis yet; nothing changed.
    Degenerate,
}

/// Drives a layout tree from pointer events: a drag on a divider moves the
/// proportion between the two panes beside it.
#[derive(Debug)]
pub struct ResizeController {
    pub tree: Node,
    pub width: u32,
    pub height: u32,
    pub state: DragState,
}

/// The coordinate of a pointer along a container's axis.
pub open spec fn axis_coord(direction: Direction, x: i32, y: i32) -> i32 {
    match direction {
        Direction::Horizontal => x,
        Direction::Vertical => y,
    }
}

/// The direction of a container (a leaf counts as horizontal).
pub open spec fn direction_of(n: Node) -> Direction {
    match n {
        Node::Container { direction, .. } => direction,
        Node::Leaf { .. } => Direction::Horizontal,
    }
}

/// The pixel extent, along its own axis, of the container at `path` when the
/// root is `w` by `h` pixels.
pub open spec fn axis_extent(tree: Node, path: Seq<usize>, w: u32, h: u32) -> int {
    let e = tree.extent_chain(path, w, h).last();
    match direction_of(tree.resolve(path).unwrap()) {
        Direction::Horizontal => e.0 as int,
        Direction::Vertical => e.1 as int,
    }
}

impl DragContext {
    /// The drag addresses a pair of adjacent panes of a container of `tree`, the
    /// anchor sizes are at least `MIN_SIZE`, and the pair's sizes in `tree` still
    /// add up to the anchor sizes' total.
    pub open spec fn fits(self, tree: Node) -> bool {
        let sizes = tree.resolve(self.path@).unwrap().sizes_of();
        &&& tree.container_at(self.path@)
        &&& self.sibling_index + 1 < sizes.len()
        &&& self.anchor_a >= MIN_SIZE
        &&& self.anchor_b >= MIN_SIZE
        &&& sizes[self.sibling_index as int] + sizes[self.sibling_index + 1] == self.anchor_a
            + self.anchor_b
    }
}

impl ResizeController {
    /// The tree is well-formed and a drag, if any, fits it.
    pub open spec fn wf(self) -> bool {
        &&& self.tree.wf()
        &&& self.state matches DragState::Dragging(ctx) ==> ctx.fits(self.tree)
    }

    /// The sizes of the container at `path`.
    pub open spec fn sizes_at(self, path: Seq<usize>) -> Seq<u32> {
        self.tree.resolve(path).unwrap().sizes_of()
    }

    /// A controller for `tree` in a root of `width` by `height` pixels, not dragging.
    pub fn new(tree: Node, width: u32, height: u32) -> (r: ResizeController)
        requires
            tree.wf(),
        ensures
            r.wf(),
            r.tree == tree,
            r.width == width,
            r.height == height,
            r.state is Idle,
    {
        ResizeController { tree, width, height, state: DragState::Idle }
    }

    /// Records a new pixel size of the root.
    pub fn set_viewport(&mut self, width: u32, height: u32)
        requires
            old(self).wf(),
        ensures
            final(self).wf(),
            final(self).tree == old(self).tree,
            final(self).state == old(self).state,
            final(self).width == width,
            final(self).height == height,
    {
        self.width = width;
        self.height = height;
    }

    /// The pointer went down at (`x`, `y`) on the divider after child
    /// `sibling_index` of the container at `path`: a drag begins, anchored at the
    /// pointer and at the pair's current sizes. A drag already going on is dropped
    /// for the new one. Fails, and changes nothing, with `InvalidPath` where `path`
    /// does not address a container, and with `InvalidIndex` where there is no
    /// child after `sibling_index`.
    pub fn pointer_down(&mut self, path: Vec<usize>, sibling_index: usize, x: i32, y: i32) -> (r:
        Result<(), LayoutError>)
        requires
            old(self).wf(),
        ensures
            final(self).wf(),
            !old(self).tree.container_at(path@) <==> r == Err::<(), LayoutError>(
                LayoutError::InvalidPath,
            ),
            (old(self).tree.container_at(path@) && sibling_index + 1 >= old(self).sizes_at(
                path@,
            ).len()) <==> r == Err::<(), LayoutError>(LayoutError::InvalidIndex),
            r is Err ==> *final(self) == *old(self),
            r is Ok ==> final(self).tree == old(self).tree && final(self).width == old(self).width
                && final(self).height == old(self).height && final(self).state
                == DragState::Dragging(
                (DragContext {
                    path,
                    sibling_index,
                    anchor_x: x,
                    anchor_y: y,
                    anchor_a: old(self).sizes_at(path@)[sibling_index as int],
                    anchor_b: old(self).sizes_at(path@)[sibling_index + 1],
                }),
            ),
    {
        let (a, b) = match self.tree.resolve_node(&path) {
            Err(e) => {
                return Err(e);
            },
            Ok(n) => match n {
                Node::Leaf { .. } => {
                    return Err(LayoutError::InvalidPath);
                },
                Node::Container { sizes, .. } => {
                    if sibling_index >= sizes.len() || sibling_index + 1 >= sizes.len() {
                        return Err(LayoutError::InvalidIndex);
                    }
                    proof {
                        self.tree.lemma_resolve_wf(path@);
                    }
                    (sizes[sibling_index], sizes[sibling_index + 1])
                },
            },
        };
        self.state = DragState::Dragging(
            DragContext { path, sibling_index, anchor_x: x, anchor_y: y, anchor_a: a, anchor_b: b },
        );
        Ok(())
    }

    /// The pointer moved to (`x`, `y`). While dragging, the pointer's travel along
    /// the dragged container's axis since the drag began, as a fraction of that
    /// container's pixel extent, moves proportion from one pane of the pair to the
    /// other (see `clamped_pair`); nothing else in the tree changes. Not dragging,
    /// or with a container of no extent, nothing changes.
    pub fn pointer_move(&mut self, x: i32, y: i32) -> (r: MoveOutcome)
        requires
            old(self).wf(),
        ensures
            final(self).wf(),
            final(self).state == old(self).state,
            final(self).width == old(self).width,
            final(self).height == old(self).height,
            old(self).state is Idle ==> r == MoveOutcome::NotDragging && final(self).tree == old(
                self,
            ).tree,
            old(self).state matches DragState::Dragging(ctx) ==> {
                let dir = direction_of(old(self).tree.resolve(ctx.path@).unwrap());
                let e = axis_extent(old(self).tree, ctx.path@, old(self).width, old(self).height);
                let i = ctx.sibling_index as int;
                let p = clamped_pair(
                    ctx.anchor_a as int,
                    ctx.anchor_b as int,
                    fraction_of(
                        axis_coord(dir, x, y) - axis_coord(dir, ctx.anchor_x, ctx.anchor_y),
                        e,
                    ),
                );
                if e == 0 {
                    r == MoveOutcome::Degenerate && final(self).tree == old(self).tree
                } else {
                    &&& r == MoveOutcome::Resized
                    &&& old(self).tree.update_rel(final(self).tree, ctx.path@, i, p.0 as u32, p.1 as u32)
                    &&& final(self).sizes_at(ctx.path@)[i] == p.0
                    &&& final(self).sizes_at(ctx.path@)[i + 1] == p.1
                    &&& final(self).sizes_at(ctx.path@)[i] + final(self).sizes_at(ctx.path@)[i + 1]
                        == old(self).sizes_at(ctx.path@)[i] + old(self).sizes_at(ctx.path@)[i + 1]
                }
            },
    {
        match &self.state {
            DragState::Idle => MoveOutcome::NotDragging,
            DragState::Dragging(ctx) => {
                let ghost old_tree = self.tree;
                let chain = match self.tree.ancestor_dimension_chain(&ctx.path, self.width, self.height) {
                    Ok(v) => v,
                    // Not reached: a drag's path addresses a container of the tree.
                    Err(_) => {
                        return MoveOutcome::Degenerate;
                    },
                };
                let last = chain[chain.len() - 1];
                let direction = match self.tree.resolve_node(&ctx.path) {
                    Ok(Node::Container { direction, .. }) => *direction,
                    // Not reached, as above.
                    _ => {
                        return MoveOutcome::Degenerate;
                    },
                };
                let extent = match direction {
                    Direction::Horizontal => last.0,
                    Direction::Vertical => last.1,
                };
                if extent == 0 {
                    return MoveOutcome::Degenerate;
                }
                let (from, to) = match direction {
                    Direction::Horizontal => (ctx.anchor_x, x),
                    Direction::Vertical => (ctx.anchor_y, y),
                };
                let frac = delta_fraction(from, to, extent);
                let i = ctx.sibling_index;
                proof {
                    self.tree.lemma_resolve_wf(ctx.path@);
                    lemma_pair_le_sum(self.sizes_at(ctx.path@), i as int);
                }
                let (a, b) = resize_pair(ctx.anchor_a, ctx.anchor_b, frac);
                let updated = self.tree.with_updated_sizes(&ctx.path, i, a, b);
                proof {
                    assert(updated is Ok);
                    old_tree.lemma_update_isolation(self.tree, ctx.path@, i as int, a, b, ctx.path@);
                    old_tree.lemma_update_wf(self.tree, ctx.path@, i as int, a, b);
                }
                MoveOutcome::Resized
            },
        }
    }

    /// The pointer went up: the drag, if any, ends. The tree is not touched.
    pub fn pointer_up(&mut self)
        requires
            old(self).wf(),
        ensures
            final(self).wf(),
            final(self).tree == old(self).tree,
            final(self).width == old(self).width,
            final(self).height == old(self).height,
            final(self).state is Idle,
    {
        self.state = DragState::Idle;
    }

    /// The pointer left the tracking surface: the drag, if any, ends as on
    /// pointer-up, so that none is left hanging.
    pub fn pointer_leave(&mut self)
        requires
            old(self).wf(),
        ensures
            final(self).wf(),
            final(self).tree == old(self).tree,
            final(self).width == old(self).width,
            final(self).height == old(self).height,
            final(self).state is Idle,
    {
        self.pointer_up();
    }
}

/// In the tree of a controller, whatever events it has taken, the sizes of every
/// container add up to one whole.
pub proof fn lemma_sizes_sum_to_whole(c: ResizeController, path: Seq<usize>)
    requires
        c.wf(),
        c.tree.container_at(path),
    ensures
        seq_sum(c.sizes_at(path)) == SCALE,
{
    c.tree.lemma_resolve_wf(path);
}

/// In the tree of a controller, whatever events it has taken, every size of every
/// container is at least `MIN_SIZE`.
pub proof fn lemma_sizes_at_least_min(c: ResizeController, path: Seq<usize>, j: int)
    requires
        c.wf(),
        c.tree.container_at(path),
        0 <= j < c.sizes_at(path).len(),
    ensures
        c.sizes_at(path)[j] >= MIN_SIZE,
{
    c.tree.lemma_resolve_wf(path);
}

/// A resize step on divider `i` of the container at `path` changes no size but
/// sizes `i` and `i + 1` of that container: every other size of every container
/// is as it was.
pub proof fn lemma_pairwise_isolation(
    before: Node,
    after: Node,
    path: Seq<usize>,
    i: int,
    a: u32,
    b: u32,
    q: Seq<usize>,
    j: int,
)
    requires
        before.update_rel(after, path, i, a, b),
        0 <= i && i + 1 < before.resolve(path).unwrap().sizes_of().len(),
        before.resolve(q) is Some,
        0 <= j < before.resolve(q).unwrap().sizes_of().len(),
        !(q == path && (j == i || j == i + 1)),
    ensures
        after.resolve(q) is Some,
        after.resolve(q).unwrap().sizes_of()[j] == before.resolve(q).unwrap().sizes_of()[j],
{
    before.lemma_update_isolation(after, path, i, a, b, q);
    before.lemma_update_isolation(after, path, i, a, b, path);
}

} // verus!
