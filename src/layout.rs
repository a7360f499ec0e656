use vstd::prelude::*;

verus! {

/// One whole, in proportion units: the sizes of a container's children add up to this.
pub const SCALE: u32 = 10000;

/// The smallest share of its parent that a pane may have (five percent).
pub const MIN_SIZE: u32 = 500;

/// The axis along which a container lays out its children.
#[derive(PartialEq, Eq, Structural, Clone, Copy, Debug)]
pub enum Direction {
    /// Children side by side; their sizes divide the width.
    Horizontal,
    /// Children stacked; their sizes divide the height.
    Vertical,
}

/// Addressing errors of the layout tree.
#[derive(PartialEq, Eq, Structural, Clone, Copy, Debug)]
pub enum LayoutError {
    /// The path leaves the tree, runs on past a leaf, or does not end at a container.
    InvalidPath,
    /// The sibling index names no pair of adjacent children.
    InvalidIndex,
}

/// A divider between two adjacent panes: the path of their container and the
/// index of the first of the two.
#[derive(Debug)]
pub struct Divider {
    pub path: Vec<usize>,
    pub sibling_index: usize,
}

/// A pane of the split layout: a container of two or more panes, or a leaf that
/// holds a content slot.
#[derive(Debug)]
pub enum Node {
    Container { direction: Direction, children: Vec<Node>, sizes: Vec<u32> },
    Leaf { slot: usize },
}

/// Sum of a sequence of sizes.
pub open spec fn seq_sum(s: Seq<u32>) -> int
    decreases s.len(),
{
    if s.len() == 0 {
        0
    } else {
        seq_sum(s.drop_last()) + s.last()
    }
}

/// `len` pixels scaled by the proportion `size` (rounded down).
pub open spec fn scale_by(len: u32, size: u32) -> u32 {
    (len as int * size as int / SCALE as int) as u32
}

/// The pixel extent of a child with proportion `size` of a `w` by `h` container:
/// a horizontal container divides its width, a vertical one its height.
pub open spec fn child_extent(direction: Direction, w: u32, h: u32, size: u32) -> (u32, u32) {
    match direction {
        Direction::Horizontal => (scale_by(w, size), h),
        Direction::Vertical => (w, scale_by(h, size)),
    }
}

fn scale_len(len: u32, size: u32) -> (r: u32)
    requires
        size <= SCALE,
    ensures
        r == scale_by(len, size),
        r <= len,
{
    proof {
        assert(len as int * size as int <= len as int * SCALE as int) by (nonlinear_arith)
            requires
                size <= SCALE,
        ;
        assert(len as int * size as int / SCALE as int <= len as int) by (nonlinear_arith)
            requires
                len as int * size as int <= len as int * SCALE as int,
        ;
    }
    let wide: u64 = len as u64 * size as u64;
    (wide / (SCALE as u64)) as u32
}

fn child_extent_exec(direction: Direction, w: u32, h: u32, size: u32) -> (r: (u32, u32))
    requires
        size <= SCALE,
    ensures
        r == child_extent(direction, w, h, size),
{
    match direction {
        Direction::Horizontal => (scale_len(w, size), h),
        Direction::Vertical => (w, scale_len(h, size)),
    }
}

/// A sum of sizes is never negative.
pub proof fn lemma_sum_nonneg(s: Seq<u32>)
    ensures
        seq_sum(s) >= 0,
    decreases s.len(),
{
    if s.len() > 0 {
        lemma_sum_nonneg(s.drop_last());
    }
}

/// Changing one size changes the sum by the difference.
pub proof fn lemma_sum_update(s: Seq<u32>, j: int, v: u32)
    requires
        0 <= j < s.len(),
    ensures
        seq_sum(s.update(j, v)) == seq_sum(s) - s[j] + v,
    decreases s.len(),
{
    let t = s.update(j, v);
    if j == s.len() - 1 {
        assert(t.drop_last() =~= s.drop_last());
    } else {
        lemma_sum_update(s.drop_last(), j, v);
        assert(t.drop_last() =~= s.drop_last().update(j, v));
    }
}

/// A prefix of a sequence of sizes sums to at most the whole.
pub proof fn lemma_prefix_sum_le(s: Seq<u32>, k: int)
    requires
        0 <= k <= s.len(),
    ensures
        seq_sum(s.take(k)) <= seq_sum(s),
    decreases s.len(),
{
    if k < s.len() {
        lemma_prefix_sum_le(s.drop_last(), k);
        assert(s.drop_last().take(k) =~= s.take(k));
    } else {
        assert(s.take(k) =~= s);
    }
}

/// Two adjacent sizes together are at most the sum.
pub proof fn lemma_pair_le_sum(s: Seq<u32>, j: int)
    requires
        0 <= j && j + 1 < s.len(),
    ensures
        s[j] + s[j + 1] <= seq_sum(s),
{
    let t = s.update(j, 0);
    lemma_sum_update(s, j, 0);
    lemma_sum_update(t, j + 1, 0);
    lemma_sum_nonneg(t.update(j + 1, 0));
}

/// One size is at most the sum.
pub proof fn lemma_size_le_sum(s: Seq<u32>, j: int)
    requires
        0 <= j < s.len(),
    ensures
        s[j] <= seq_sum(s),
{
    lemma_sum_update(s, j, 0);
    lemma_sum_nonneg(s.update(j, 0));
}

/// Some entry of `ds` from index `from` on is the divider after child `i` of the
/// container at `path`.
pub open spec fn lists_divider(ds: Seq<Divider>, from: int, path: Seq<usize>, i: int) -> bool {
    exists|k: int| from <= k < ds.len() && (#[trigger] ds[k]).path@ == path && ds[k].sibling_index == i
}

proof fn lemma_lists_grow(a: Seq<Divider>, b: Seq<Divider>, from: int, from2: int, path: Seq<usize>, i: int)
    requires
        lists_divider(a, from, path, i),
        0 <= from2 <= from,
        a.len() <= b.len(),
        forall|k: int| 0 <= k < a.len() ==> b[k] == a[k],
    ensures
        lists_divider(b, from2, path, i),
{
    let k = choose|k: int| from <= k < a.len() && (#[trigger] a[k]).path@ == path && a[k].sibling_index == i;
    assert(b[k] == a[k]);
}

impl Node {
    /// Every container has at least two children, one size per child, sizes of at
    /// least `MIN_SIZE` that add up to `SCALE`, and well-formed children.
    pub open spec fn wf(self) -> bool
        decreases self,
    {
        match self {
            Node::Leaf { .. } => true,
            Node::Container { direction, children, sizes } => {
                &&& children.len() >= 2
                &&& sizes.len() == children.len()
                &&& seq_sum(sizes@) == SCALE
                &&& forall|j: int| 0 <= j < sizes.len() ==> sizes@[j] >= MIN_SIZE
                &&& forall|j: int| 0 <= j < children.len() ==> (#[trigger] children@[j]).wf()
            },
        }
    }

    /// The node that `path` addresses, walking child indices from `self`.
    pub open spec fn resolve(self, path: Seq<usize>) -> Option<Node>
        decreases path.len(),
    {
        if path.len() == 0 {
            Some(self)
        } else {
            match self {
                Node::Leaf { .. } => None,
                Node::Container { children, .. } => {
                    if path[0] < children.len() {
                        children@[path[0] as int].resolve(path.skip(1))
                    } else {
                        None
                    }
                },
            }
        }
    }

    /// The sizes of a container; empty for a leaf.
    pub open spec fn sizes_of(self) -> Seq<u32> {
        match self {
            Node::Container { sizes, .. } => sizes@,
            Node::Leaf { .. } => Seq::empty(),
        }
    }

    /// Whether `path` addresses a container.
    pub open spec fn container_at(self, path: Seq<usize>) -> bool {
        self.resolve(path) matches Some(n) && n is Container
    }

    fn resolve_from(&self, path: &Vec<usize>, k: usize) -> (r: Option<&Node>)
        requires
            k <= path.len(),
        ensures
            r matches Some(n) ==> self.resolve(path@.skip(k as int)) == Some(*n),
            r is None ==> self.resolve(path@.skip(k as int)) is None,
        decreases path.len() - k,
    {
        if k == path.len() {
            return Some(self);
        }
        proof {
            assert(path@.skip(k as int).skip(1) =~= path@.skip(k + 1));
        }
        match self {
            Node::Leaf { .. } => None,
            Node::Container { children, .. } => {
                let j = path[k];
                if j < children.len() {
                    children[j].resolve_from(path, k + 1)
                } else {
                    None
                }
            },
        }
    }

    /// The node at `path`, or `InvalidPath` where an index is out of bounds or the
    /// path runs on past a leaf.
    pub fn resolve_node(&self, path: &Vec<usize>) -> (r: Result<&Node, LayoutError>)
        ensures
            r matches Ok(n) ==> self.resolve(path@) == Some(*n),
            r is Err ==> self.resolve(path@) is None && r == Err::<&Node, LayoutError>(
                LayoutError::InvalidPath,
            ),
    {
        proof {
            assert(path@.skip(0) =~= path@);
        }
        match self.resolve_from(path, 0) {
            Some(n) => Ok(n),
            None => Err(LayoutError::InvalidPath),
        }
    }

    /// `new` is `self` with sizes `i` and `i + 1` of the container at `path` set to
    /// `a` and `b`; every other size, every direction and every leaf is unchanged.
    pub open spec fn update_rel(self, new: Node, path: Seq<usize>, i: int, a: u32, b: u32) -> bool
        decreases path.len(),
    {
        match self {
            Node::Leaf { .. } => false,
            Node::Container { direction, children, sizes } => match new {
                Node::Leaf { .. } => false,
                Node::Container { direction: d2, children: c2, sizes: s2 } => {
                    &&& d2 == direction
                    &&& if path.len() == 0 {
                        &&& c2@ == children@
                        &&& s2@ == sizes@.update(i, a).update(i + 1, b)
                    } else {
                        &&& s2@ == sizes@
                        &&& path[0] < children.len()
                        &&& c2.len() == children.len()
                        &&& forall|j: int|
                            0 <= j < children.len() && j != path[0] ==> c2@[j] == children@[j]
                        &&& children@[path[0] as int].update_rel(
                            c2@[path[0] as int],
                            path.skip(1),
                            i,
                            a,
                            b,
                        )
                    }
                },
            },
        }
    }

    fn set_pair_from(&mut self, path: &Vec<usize>, k: usize, i: usize, a: u32, b: u32)
        requires
            k <= path.len(),
            old(self).container_at(path@.skip(k as int)),
            i + 1 < old(self).resolve(path@.skip(k as int)).unwrap().sizes_of().len(),
        ensures
            old(self).update_rel(*final(self), path@.skip(k as int), i as int, a, b),
        decreases path.len() - k,
    {
        proof {
            if k < path.len() {
                assert(path@.skip(k as int).skip(1) =~= path@.skip(k + 1));
            }
        }
        match self {
            Node::Leaf { .. } => {},
            Node::Container { children, sizes, .. } => {
                if k == path.len() {
                    assert(i + 1 < sizes.len());
                    sizes.set(i, a);
                    sizes.set(i + 1, b);
                } else {
                    let j = path[k];
                    children[j].set_pair_from(path, k + 1, i, a, b);
                }
            },
        }
    }

    /// Sets sizes `i` and `i + 1` of the container at `path` to `a` and `b`, in
    /// place along the path: only the nodes on the path are touched, every other
    /// subtree stays where it is. Fails, and leaves the tree as it was, with
    /// `InvalidPath` where `path` does not address a container, and with
    /// `InvalidIndex` where `i + 1` is not a size index of that container.
    pub fn with_updated_sizes(&mut self, path: &Vec<usize>, i: usize, a: u32, b: u32) -> (r: Result<(), LayoutError>)
        ensures
            !old(self).container_at(path@) <==> r == Err::<(), LayoutError>(LayoutError::InvalidPath),
            (old(self).container_at(path@) && i + 1 >= old(self).resolve(path@).unwrap().sizes_of().len())
                <==> r == Err::<(), LayoutError>(LayoutError::InvalidIndex),
            r is Ok <==> old(self).container_at(path@) && i + 1 < old(self).resolve(
                path@,
            ).unwrap().sizes_of().len(),
            r is Ok ==> old(self).update_rel(*final(self), path@, i as int, a, b),
            r is Err ==> *final(self) == *old(self),
    {
        let found = match self.resolve_node(path) {
            Ok(n) => match n {
                Node::Container { sizes, .. } => {
                    if i < sizes.len() && i + 1 < sizes.len() {
                        Ok(())
                    } else {
                        Err(LayoutError::InvalidIndex)
                    }
                },
                Node::Leaf { .. } => Err(LayoutError::InvalidPath),
            },
            Err(e) => Err(e),
        };
        if found.is_ok() {
            proof {
                assert(path@.skip(0) =~= path@);
            }
            self.set_pair_from(path, 0, i, a, b);
        }
        found
    }

    /// The pixel extents of the nodes along `path`, from `self` (given `w` by `h`
    /// pixels) down to the node that `path` addresses, where it resolves.
    pub open spec fn extent_chain(self, path: Seq<usize>, w: u32, h: u32) -> Seq<(u32, u32)>
        decreases path.len(),
    {
        if path.len() == 0 {
            seq![(w, h)]
        } else {
            match self {
                Node::Leaf { .. } => seq![(w, h)],
                Node::Container { direction, children, sizes } => {
                    if path[0] < children.len() {
                        let e = child_extent(direction, w, h, sizes@[path[0] as int]);
                        seq![(w, h)] + children@[path[0] as int].extent_chain(
                            path.skip(1),
                            e.0,
                            e.1,
                        )
                    } else {
                        seq![(w, h)]
                    }
                },
            }
        }
    }

    fn extent_chain_from(
        &self,
        path: &Vec<usize>,
        k: usize,
        w: u32,
        h: u32,
        out: &mut Vec<(u32, u32)>,
    )
        requires
            k <= path.len(),
            self.wf(),
            self.resolve(path@.skip(k as int)) is Some,
        ensures
            final(out)@ == old(out)@ + self.extent_chain(path@.skip(k as int), w, h),
        decreases path.len() - k,
    {
        out.push((w, h));
        if k == path.len() {
            proof {
                assert(final(out)@ =~= old(out)@ + self.extent_chain(path@.skip(k as int), w, h));
            }
            return;
        }
        proof {
            assert(path@.skip(k as int).skip(1) =~= path@.skip(k + 1));
        }
        match self {
            Node::Leaf { .. } => {},
            Node::Container { direction, children, sizes } => {
                let j = path[k];
                proof {
                    lemma_size_le_sum(sizes@, j as int);
                }
                let e = child_extent_exec(*direction, w, h, sizes[j]);
                children[j].extent_chain_from(path, k + 1, e.0, e.1, out);
                proof {
                    assert(out@ =~= old(out)@ + self.extent_chain(path@.skip(k as int), w, h));
                }
            },
        }
    }

    /// The pixel extent of every node along `path` when `self` is `w` by `h` pixels:
    /// entry 0 is `self`, and each next entry scales the width (in a horizontal
    /// container) or the height (in a vertical one) by the proportion of the child
    /// descended into. The last entry is the extent of the node at `path`.
    pub fn ancestor_dimension_chain(&self, path: &Vec<usize>, w: u32, h: u32) -> (r: Result<
        Vec<(u32, u32)>,
        LayoutError,
    >)
        requires
            self.wf(),
        ensures
            r matches Ok(v) ==> v@ == self.extent_chain(path@, w, h) && v@.len() == path@.len() + 1,
            r is Err <==> self.resolve(path@) is None,
            r is Err ==> r == Err::<Vec<(u32, u32)>, LayoutError>(LayoutError::InvalidPath),
    {
        match self.resolve_node(path) {
            Err(e) => Err(e),
            Ok(_) => {
                let mut out: Vec<(u32, u32)> = Vec::new();
                proof {
                    assert(path@.skip(0) =~= path@);
                }
                self.extent_chain_from(path, 0, w, h, &mut out);
                proof {
                    assert(out@ =~= self.extent_chain(path@, w, h));
                    self.lemma_chain_len(path@, w, h);
                }
                Ok(out)
            },
        }
    }

    /// Along a path that resolves, the chain has one entry per prefix of the path.
    pub proof fn lemma_chain_len(self, path: Seq<usize>, w: u32, h: u32)
        requires
            self.resolve(path) is Some,
        ensures
            self.extent_chain(path, w, h).len() == path.len() + 1,
        decreases path.len(),
    {
        if path.len() > 0 {
            match self {
                Node::Leaf { .. } => {},
                Node::Container { direction, children, sizes } => {
                    let e = child_extent(direction, w, h, sizes@[path[0] as int]);
                    children@[path[0] as int].lemma_chain_len(path.skip(1), e.0, e.1);
                },
            }
        }
    }

    /// A well-formed tree has well-formed subtrees at every path.
    pub proof fn lemma_resolve_wf(self, path: Seq<usize>)
        requires
            self.wf(),
            self.resolve(path) is Some,
        ensures
            self.resolve(path).unwrap().wf(),
        decreases path.len(),
    {
        if path.len() > 0 {
            match self {
                Node::Leaf { .. } => {},
                Node::Container { children, .. } => {
                    assert(children@[path[0] as int].wf());
                    children@[path[0] as int].lemma_resolve_wf(path.skip(1));
                },
            }
        }
    }

    /// After an update every path resolves as before; the container at the updated
    /// path has the new pair of sizes, and every other node keeps its sizes.
    pub proof fn lemma_update_isolation(
        self,
        new: Node,
        path: Seq<usize>,
        i: int,
        a: u32,
        b: u32,
        q: Seq<usize>,
    )
        requires
            self.update_rel(new, path, i, a, b),
        ensures
            self.resolve(q) is Some <==> new.resolve(q) is Some,
            self.resolve(q) is Some ==> (self.resolve(q).unwrap() is Container <==> new.resolve(
                q,
            ).unwrap() is Container),
            self.resolve(q) is Some && q != path ==> new.resolve(q).unwrap().sizes_of()
                == self.resolve(q).unwrap().sizes_of(),
            q == path ==> self.resolve(q) is Some && new.resolve(q).unwrap().sizes_of()
                == self.resolve(q).unwrap().sizes_of().update(i, a).update(i + 1, b),
        decreases q.len(),
    {
        match self {
            Node::Leaf { .. } => {},
            Node::Container { direction, children, sizes } => match new {
                Node::Leaf { .. } => {},
                Node::Container { direction: d2, children: c2, sizes: s2 } => {
                    if q.len() > 0 {
                        if path.len() == 0 {
                            assert(q != path);
                        } else if q[0] < children.len() {
                            let j = q[0] as int;
                            if j != path[0] {
                                assert(q != path);
                            } else {
                                children@[j].lemma_update_isolation(
                                    c2@[j],
                                    path.skip(1),
                                    i,
                                    a,
                                    b,
                                    q.skip(1),
                                );
                                if q == path {
                                    assert(q.skip(1) == path.skip(1));
                                }
                                if q.skip(1) == path.skip(1) {
                                    assert forall|k: int| 0 <= k < q.len() implies q[k] == path[k] by {
                                        if k > 0 {
                                            assert(q[k] == q.skip(1)[k - 1]);
                                            assert(path[k] == path.skip(1)[k - 1]);
                                        }
                                    }
                                    assert(q =~= path);
                                }
                            }
                        } else {
                            if q == path {
                                assert(false);
                            }
                        }
                    } else {
                        if path.len() > 0 {
                            assert(q != path);
                        } else {
                            assert(q =~= path);
                        }
                    }
                },
            },
        }
    }

    /// An update that gives the pair new sizes of at least `MIN_SIZE` with the same
    /// total keeps a well-formed tree well-formed.
    pub proof fn lemma_update_wf(self, new: Node, path: Seq<usize>, i: int, a: u32, b: u32)
        requires
            self.wf(),
            self.update_rel(new, path, i, a, b),
            0 <= i,
            i + 1 < self.resolve(path).unwrap().sizes_of().len(),
            a >= MIN_SIZE,
            b >= MIN_SIZE,
            a + b == self.resolve(path).unwrap().sizes_of()[i] + self.resolve(path).unwrap().sizes_of()[i + 1],
        ensures
            new.wf(),
        decreases path.len(),
    {
        match self {
            Node::Leaf { .. } => {},
            Node::Container { direction, children, sizes } => match new {
                Node::Leaf { .. } => {},
                Node::Container { direction: d2, children: c2, sizes: s2 } => {
                    if path.len() == 0 {
                        lemma_sum_update(sizes@, i, a);
                        lemma_sum_update(sizes@.update(i, a), i + 1, b);
                        assert forall|j: int| 0 <= j < c2.len() implies (#[trigger] c2@[j]).wf() by {
                            assert(c2@[j] == children@[j]);
                        }
                    } else {
                        let k = path[0] as int;
                        assert(children@[k].wf());
                        children@[k].lemma_update_wf(c2@[k], path.skip(1), i, a, b);
                        assert forall|j: int| 0 <= j < c2.len() implies (#[trigger] c2@[j]).wf() by {
                            if j != k {
                                assert(c2@[j] == children@[j]);
                                assert(children@[j].wf());
                            }
                        }
                    }
                },
            },
        }
    }

    /// The number of children of a container; 0 for a leaf.
    pub open spec fn child_count(self) -> int {
        match self {
            Node::Container { children, .. } => children.len() as int,
            Node::Leaf { .. } => 0,
        }
    }

    /// Whether there is a divider after child `i` of a container at `path`.
    pub open spec fn is_divider(self, path: Seq<usize>, i: int) -> bool {
        &&& self.container_at(path)
        &&& 0 <= i
        &&& i + 1 < self.resolve(path).unwrap().child_count()
    }

    /// Descending one more step resolves to the child of the node reached so far.
    pub proof fn lemma_resolve_push(self, path: Seq<usize>, j: usize)
        requires
            self.resolve(path) matches Some(n) && n is Container && j < n.child_count(),
        ensures
            self.resolve(path.push(j)) == Some(
                (match self.resolve(path).unwrap() {
                    Node::Container { children, .. } => children@[j as int],
                    Node::Leaf { .. } => self,
                }),
            ),
        decreases path.len(),
    {
        if path.len() == 0 {
            assert(path.push(j)[0] == j);
            assert(path.push(j).skip(1) =~= Seq::<usize>::empty());
            if let Node::Container { children, .. } = self {
                assert(children@[j as int].resolve(path.push(j).skip(1)) == Some(children@[j as int]));
            }
        } else {
            match self {
                Node::Leaf { .. } => {},
                Node::Container { children, .. } => {
                    assert(path.push(j)[0] == path[0]);
                    assert(path.push(j).skip(1) =~= path.skip(1).push(j));
                    children@[path[0] as int].lemma_resolve_push(path.skip(1), j);
                },
            }
        }
    }

    fn copy_path(path: &Vec<usize>) -> (r: Vec<usize>)
        ensures
            r@ == path@,
    {
        let mut r: Vec<usize> = Vec::new();
        let mut k: usize = 0;
        while k < path.len()
            invariant
                k <= path.len(),
                r@ == path@.take(k as int),
            decreases path.len() - k,
        {
            r.push(path[k]);
            k = k + 1;
            proof {
                assert(r@ =~= path@.take(k as int));
            }
        }
        proof {
            assert(path@.take(k as int) =~= path@);
        }
        r
    }

    fn collect_dividers(&self, root: Ghost<Node>, prefix: &mut Vec<usize>, out: &mut Vec<Divider>)
        requires
            root@.resolve(old(prefix)@) == Some(*self),
        ensures
            final(prefix)@ == old(prefix)@,
            final(out)@.len() >= old(out)@.len(),
            forall|k: int| 0 <= k < old(out)@.len() ==> final(out)@[k] == old(out)@[k],
            forall|k: int|
                old(out)@.len() <= k < final(out)@.len() ==> root@.is_divider(
                    (#[trigger] final(out)@[k]).path@,
                    final(out)@[k].sibling_index as int,
                ),
            forall|p: Seq<usize>, t: int|
                #[trigger] self.is_divider(p, t) ==> lists_divider(
                    final(out)@,
                    old(out)@.len() as int,
                    old(prefix)@ + p,
                    t,
                ),
        decreases self,
    {
        let ghost start = old(out)@.len() as int;
        match self {
            Node::Leaf { .. } => {},
            Node::Container { direction, children, sizes } => {
                let n = children.len();
                let mut i: usize = 1;
                while i < n
                    invariant
                        1 <= i,
                        prefix@ == old(prefix)@,
                        root@.resolve(prefix@) == Some(*self),
                        *self == (Node::Container {
                            direction: *direction,
                            children: *children,
                            sizes: *sizes,
                        }),
                        n == children.len(),
                        start == old(out)@.len(),
                        out@.len() >= old(out)@.len(),
                        forall|k: int| 0 <= k < old(out)@.len() ==> out@[k] == old(out)@[k],
                        forall|k: int|
                            old(out)@.len() <= k < out@.len() ==> root@.is_divider(
                                (#[trigger] out@[k]).path@,
                                out@[k].sibling_index as int,
                            ),
                        forall|t: int| 0 <= t < i - 1 ==> lists_divider(out@, start, prefix@, t),
                    decreases n - i,
                {
                    let ghost prev = out@;
                    let path = Self::copy_path(prefix);
                    proof {
                        assert(root@.is_divider(path@, i - 1));
                    }
                    out.push(Divider { path, sibling_index: i - 1 });
                    proof {
                        assert(out@[out@.len() - 1].path@ == prefix@);
                        assert(lists_divider(out@, start, prefix@, i - 1));
                        assert forall|t: int| 0 <= t < i - 1 implies lists_divider(
                            out@,
                            start,
                            prefix@,
                            t,
                        ) by {
                            lemma_lists_grow(prev, out@, start, start, prefix@, t);
                        }
                    }
                    i = i + 1;
                }
                let mut j: usize = 0;
                while j < n
                    invariant
                        prefix@ == old(prefix)@,
                        root@.resolve(prefix@) == Some(*self),
                        *self == (Node::Container {
                            direction: *direction,
                            children: *children,
                            sizes: *sizes,
                        }),
                        n == children.len(),
                        start == old(out)@.len(),
                        out@.len() >= old(out)@.len(),
                        forall|k: int| 0 <= k < old(out)@.len() ==> out@[k] == old(out)@[k],
                        forall|k: int|
                            old(out)@.len() <= k < out@.len() ==> root@.is_divider(
                                (#[trigger] out@[k]).path@,
                                out@[k].sibling_index as int,
                            ),
                        forall|t: int| 0 <= t < n - 1 ==> lists_divider(out@, start, prefix@, t),
                        forall|jj: int, p: Seq<usize>, t: int|
                            0 <= jj < j && #[trigger] children@[jj].is_divider(p, t)
                                ==> lists_divider(out@, start, prefix@.push(jj as usize) + p, t),
                    decreases n - j,
                {
                    let ghost before = out@;
                    proof {
                        assert((*self).child_count() == n as int);
                        root@.lemma_resolve_push(prefix@, j);
                        assert(decreases_to!(*children => children[j as int]));
                    }
                    prefix.push(j);
                    let ghost pushed = prefix@;
                    children[j].collect_dividers(root, prefix, out);
                    prefix.pop();
                    proof {
                        assert(prefix@ =~= old(prefix)@);
                        assert forall|k: int| 0 <= k < old(out)@.len() implies out@[k] == old(out)@[k] by {
                            assert(out@[k] == before[k]);
                        }
                        assert forall|t: int| 0 <= t < n - 1 implies lists_divider(out@, start, prefix@, t) by {
                            lemma_lists_grow(before, out@, start, start, prefix@, t);
                        }
                        assert forall|jj: int, p: Seq<usize>, t: int|
                            0 <= jj <= j && #[trigger] children@[jj].is_divider(p, t) implies lists_divider(
                            out@,
                            start,
                            prefix@.push(jj as usize) + p,
                            t,
                        ) by {
                            if jj < j {
                                lemma_lists_grow(before, out@, start, start, prefix@.push(jj as usize) + p, t);
                            } else {
                                assert(pushed == prefix@.push(jj as usize));
                                lemma_lists_grow(out@, out@, before.len() as int, start, prefix@.push(jj as usize) + p, t);
                            }
                        }
                    }
                    j = j + 1;
                }
                proof {
                    assert forall|p: Seq<usize>, t: int| #[trigger] self.is_divider(p, t) implies lists_divider(
                        out@,
                        start,
                        old(prefix)@ + p,
                        t,
                    ) by {
                        if p.len() == 0 {
                            assert(old(prefix)@ + p =~= old(prefix)@);
                        } else {
                            let jj = p[0] as int;
                            assert(children@[jj].is_divider(p.skip(1), t));
                            assert(prefix@.push(jj as usize) + p.skip(1) =~= old(prefix)@ + p);
                        }
                    }
                }
            },
        }
    }

    /// Every divider of the tree, container by container in pre-order: each entry
    /// addresses a container and a child of it that has a next sibling, and every
    /// such pair of the tree has an entry.
    pub fn dividers(&self) -> (r: Vec<Divider>)
        ensures
            forall|k: int|
                0 <= k < r@.len() ==> self.is_divider(
                    (#[trigger] r@[k]).path@,
                    r@[k].sibling_index as int,
                ),
            forall|p: Seq<usize>, i: int| #[trigger] self.is_divider(p, i) ==> lists_divider(r@, 0, p, i),
    {
        let mut prefix: Vec<usize> = Vec::new();
        let mut out: Vec<Divider> = Vec::new();
        proof {
            assert(self.resolve(prefix@) == Some(*self));
        }
        self.collect_dividers(Ghost(*self), &mut prefix, &mut out);
        proof {
            assert forall|p: Seq<usize>, i: int| #[trigger] self.is_divider(p, i) implies lists_divider(out@, 0, p, i) by {
                assert(prefix@ + p =~= p);
            }
        }
        out
    }

    /// The most children that a container can give `MIN_SIZE` each.
    pub open spec fn max_children() -> int {
        SCALE as int / MIN_SIZE as int
    }

    /// A container of `children` laid out along `direction`, split equally: each
    /// child gets `SCALE / n` of `n` children, the last one also the remainder.
    /// `None` where there are fewer than two children or more than fit at
    /// `MIN_SIZE` each.
    pub fn split(direction: Direction, children: Vec<Node>) -> (r: Option<Node>)
        ensures
            r is Some <==> 2 <= children.len() <= Self::max_children(),
            r matches Some(node) ==> {
                let n = children.len() as int;
                let share = SCALE as int / n;
                &&& node matches Node::Container { direction: d, children: c, sizes }
                &&& d == direction
                &&& c@ == children@
                &&& sizes.len() == n
                &&& forall|j: int| 0 <= j < n - 1 ==> sizes@[j] == share
                &&& sizes@[n - 1] == SCALE - (n - 1) * share
            },
            (r matches Some(node) && forall|j: int| 0 <= j < children.len() ==> (#[trigger] children@[j]).wf())
                ==> r.unwrap().wf(),
    {
        let n = children.len();
        if n < 2 || n > (SCALE / MIN_SIZE) as usize {
            return None;
        }
        let share: u32 = SCALE / (n as u32);
        proof {
            let ni = n as int;
            let q = share as int;
            assert(q * ni <= SCALE && SCALE < (q + 1) * ni) by (nonlinear_arith)
                requires
                    q == SCALE as int / ni,
                    ni > 0,
            ;
            assert(q >= MIN_SIZE) by (nonlinear_arith)
                requires
                    SCALE < (q + 1) * ni,
                    ni <= 20,
                    ni > 0,
            ;
        }
        let mut sizes: Vec<u32> = Vec::new();
        let mut k: usize = 0;
        while k + 1 < n
            invariant
                k < n,
                n >= 2,
                sizes@.len() == k,
                share as int * n as int <= SCALE,
                forall|j: int| 0 <= j < k ==> sizes@[j] == share,
                seq_sum(sizes@) == k * share,
            decreases n - k,
        {
            proof {
                assert(k as int * share as int + share as int <= n as int * share as int) by (nonlinear_arith)
                    requires
                        k + 1 < n,
                ;
            }
            let ghost prev = sizes@;
            sizes.push(share);
            proof {
                assert(sizes@.drop_last() =~= prev);
                assert((k as int + 1) * share as int == k as int * share as int + share as int) by (nonlinear_arith);
            }
            k = k + 1;
        }
        let ghost before = sizes@;
        proof {
            assert((n - 1) as int * share as int <= SCALE) by (nonlinear_arith)
                requires
                    share as int * n as int <= SCALE,
                    n >= 1,
            ;
        }
        let last: u32 = SCALE - (k as u32) * share;
        sizes.push(last);
        proof {
            assert(sizes@.drop_last() =~= before);
            assert(last as int >= share as int) by (nonlinear_arith)
                requires
                    share as int * n as int <= SCALE,
                    last as int == SCALE - k as int * share as int,
                    k + 1 == n,
            ;
        }
        Some(Node::Container { direction, children, sizes })
    }

    /// Whether the tree is well-formed: every container has at least two children,
    /// one size per child, sizes of at least `MIN_SIZE` that add up to `SCALE`.
    pub fn is_well_formed(&self) -> (r: bool)
        ensures
            r == self.wf(),
        decreases self,
    {
        match self {
            Node::Leaf { .. } => true,
            Node::Container { direction, children, sizes } => {
                if children.len() < 2 || sizes.len() != children.len() {
                    return false;
                }
                let mut total: u64 = 0;
                let mut k: usize = 0;
                while k < sizes.len()
                    invariant
                        *self == (Node::Container {
                            direction: *direction,
                            children: *children,
                            sizes: *sizes,
                        }),
                        k <= sizes.len(),
                        total == seq_sum(sizes@.take(k as int)),
                        total <= SCALE,
                        forall|j: int| 0 <= j < k ==> sizes@[j] >= MIN_SIZE,
                    decreases sizes.len() - k,
                {
                    if sizes[k] < MIN_SIZE {
                        return false;
                    }
                    proof {
                        assert(sizes@.take(k + 1).drop_last() =~= sizes@.take(k as int));
                    }
                    total = total + sizes[k] as u64;
                    k = k + 1;
                    if total > SCALE as u64 {
                        proof {
                            lemma_prefix_sum_le(sizes@, k as int);
                        }
                        return false;
                    }
                }
                proof {
                    assert(sizes@.take(k as int) =~= sizes@);
                }
                if total != SCALE as u64 {
                    return false;
                }
                let mut j: usize = 0;
                while j < children.len()
                    invariant
                        *self == (Node::Container {
                            direction: *direction,
                            children: *children,
                            sizes: *sizes,
                        }),
                        j <= children.len(),
                        forall|t: int| 0 <= t < j ==> (#[trigger] children@[t]).wf(),
                    decreases children.len() - j,
                {
                    proof {
                        assert((*self).child_count() == children.len());
                        assert(decreases_to!(*children => children[j as int]));
                    }
                    if !children[j].is_well_formed() {
                        return false;
                    }
                    j = j + 1;
                }
                true
            },
        }
    }
}

} // verus!
