use vstd::prelude::*;

verus! {

/// Largest number of objects that a leaf holds; below this a linear scan is
/// cheaper than another level of the tree.
pub const LEAF_CAPACITY: usize = 5;

/// A node of the bounding-volume hierarchy, stored in an arena.
///
/// Every node covers the contiguous range `[start, end)` of the hierarchy's
/// object order; a branch names its two children by arena index.
#[derive(Clone, Copy, Debug, PartialEq, Eq, Structural)]
pub enum BVHNode {
    Branch { start: usize, end: usize, left: usize, right: usize },
    FewObjects { start: usize, end: usize },
}

impl BVHNode {
    pub open spec fn spec_start(self) -> usize {
        match self {
            BVHNode::Branch { start, .. } => start,
            BVHNode::FewObjects { start, .. } => start,
        }
    }

    pub open spec fn spec_end(self) -> usize {
        match self {
            BVHNode::Branch { end, .. } => end,
            BVHNode::FewObjects { end, .. } => end,
        }
    }

    /// First position of the object order that this node covers.
    pub fn start(&self) -> (r: usize)
        ensures
            r == self.spec_start(),
    {
        match self {
            BVHNode::Branch { start, .. } => *start,
            BVHNode::FewObjects { start, .. } => *start,
        }
    }

    /// One past the last position of the object order that this node covers.
    pub fn end(&self) -> (r: usize)
        ensures
            r == self.spec_end(),
    {
        match self {
            BVHNode::Branch { end, .. } => *end,
            BVHNode::FewObjects { end, .. } => *end,
        }
    }
}

/// Where a range of objects is cut in two: its first half goes left.
pub open spec fn split_point(start: int, end: int) -> int {
    start + (end - start) / 2
}

/// Number of nodes in the hierarchy over `m` objects.
pub open spec fn node_count(m: nat) -> nat
    decreases m,
{
    if m <= LEAF_CAPACITY {
        1
    } else {
        1 + node_count(m / 2) + node_count((m - m / 2) as nat)
    }
}

/// Node `i` is shaped as the hierarchy over `n` objects asks: a leaf holds one
/// to `LEAF_CAPACITY` objects, a branch more, and a branch's children come
/// earlier in the arena and cover the two halves of its range.
pub open spec fn node_wf(nodes: Seq<BVHNode>, i: int, n: int) -> bool {
    match nodes[i] {
        BVHNode::FewObjects { start, end } => start < end && end - start <= LEAF_CAPACITY && end
            <= n,
        BVHNode::Branch { start, end, left, right } => {
            &&& end - start > LEAF_CAPACITY
            &&& end <= n
            &&& left < i
            &&& right < i
            &&& nodes[left as int].spec_start() == start
            &&& nodes[left as int].spec_end() == split_point(start as int, end as int)
            &&& nodes[right as int].spec_start() == split_point(start as int, end as int)
            &&& nodes[right as int].spec_end() == end
        },
    }
}

/// Leaves appear in the arena in the order of the ranges they cover, and the
/// ranges do not overlap.
pub open spec fn leaves_ordered(nodes: Seq<BVHNode>) -> bool {
    forall|i: int, j: int|
        #![trigger nodes[i], nodes[j]]
        0 <= i < j < nodes.len() && nodes[i] is FewObjects && nodes[j] is FewObjects
            ==> nodes[i].spec_end() <= nodes[j].spec_start()
}

/// Node `i` is a leaf whose range holds position `p`.
pub open spec fn leaf_contains(nodes: Seq<BVHNode>, i: int, p: int) -> bool {
    &&& 0 <= i < nodes.len()
    &&& nodes[i] is FewObjects
    &&& nodes[i].spec_start() <= p < nodes[i].spec_end()
}

/// Shape of the bounding-volume hierarchy over a number of objects.
///
/// The nodes stand in post-order: children before their parent, the root
/// last. Visiting the arena from the root downwards therefore reaches each
/// parent before its children, which is the order in which a builder sorts
/// each node's range along its widest axis before the range is split.
pub struct BvhLayout {
    nodes: Vec<BVHNode>,
    object_count: usize,
}

impl BvhLayout {
    pub closed spec fn spec_nodes(self) -> Seq<BVHNode> {
        self.nodes@
    }

    pub closed spec fn spec_object_count(self) -> nat {
        self.object_count as nat
    }

    pub open spec fn wf(self) -> bool {
        let nodes = self.spec_nodes();
        let n = self.spec_object_count();
        &&& n > 0
        &&& nodes.len() == node_count(n)
        &&& nodes.last().spec_start() == 0
        &&& nodes.last().spec_end() == n
        &&& forall|i: int| 0 <= i < nodes.len() ==> #[trigger] node_wf(nodes, i, n as int)
        &&& leaves_ordered(nodes)
    }

    /// Lays out the hierarchy over `object_count` objects; there is none over
    /// no objects.
    pub fn new(object_count: usize) -> (r: Option<BvhLayout>)
        ensures
            r is None <==> object_count == 0,
            r matches Some(layout) ==> layout.wf() && layout.spec_object_count() == object_count,
    {
        if object_count == 0 {
            return None;
        }
        let mut nodes: Vec<BVHNode> = Vec::new();
        let _root = build_range(&mut nodes, 0, object_count, object_count);
        Some(BvhLayout { nodes, object_count })
    }

    /// Number of objects the hierarchy is laid out over.
    pub fn object_count(&self) -> (r: usize)
        ensures
            r == self.spec_object_count(),
    {
        self.object_count
    }

    /// Number of nodes in the arena.
    pub fn node_total(&self) -> (r: usize)
        ensures
            r == self.spec_nodes().len(),
    {
        self.nodes.len()
    }

    /// Arena index of the root, which covers every object.
    pub fn root(&self) -> (r: usize)
        requires
            self.wf(),
        ensures
            r == self.spec_nodes().len() - 1,
            self.spec_nodes()[r as int].spec_start() == 0,
            self.spec_nodes()[r as int].spec_end() == self.spec_object_count(),
    {
        self.nodes.len() - 1
    }

    /// The node at arena index `i`.
    pub fn node(&self, i: usize) -> (r: BVHNode)
        requires
            i < self.spec_nodes().len(),
        ensures
            r == self.spec_nodes()[i as int],
    {
        self.nodes[i]
    }
}

/// Descending from node `i` along the half that holds `p` ends in a leaf that
/// holds `p`.
proof fn lemma_descend_to_leaf(nodes: Seq<BVHNode>, n: int, i: int, p: int) -> (leaf: int)
    requires
        0 <= i < nodes.len(),
        forall|k: int| 0 <= k < nodes.len() ==> #[trigger] node_wf(nodes, k, n),
        nodes[i].spec_start() <= p < nodes[i].spec_end(),
    ensures
        leaf_contains(nodes, leaf, p),
    decreases i,
{
    assert(node_wf(nodes, i, n));
    match nodes[i] {
        BVHNode::FewObjects { .. } => i,
        BVHNode::Branch { start, end, left, right } => {
            if p < split_point(start as int, end as int) {
                lemma_descend_to_leaf(nodes, n, left as int, p)
            } else {
                lemma_descend_to_leaf(nodes, n, right as int, p)
            }
        },
    }
}

/// Every object of a laid-out hierarchy lies in exactly one leaf, so a
/// traversal that enters every leaf whose box the ray meets tests each object
/// the ray can hit, and tests it once.
pub proof fn lemma_each_object_in_one_leaf(layout: BvhLayout, p: int)
    requires
        layout.wf(),
        0 <= p < layout.spec_object_count(),
    ensures
        exists|i: int| leaf_contains(layout.spec_nodes(), i, p),
        forall|i: int, j: int|
            leaf_contains(layout.spec_nodes(), i, p) && leaf_contains(layout.spec_nodes(), j, p)
                ==> i == j,
{
    let nodes = layout.spec_nodes();
    let root = nodes.len() - 1;
    let leaf = lemma_descend_to_leaf(nodes, layout.spec_object_count() as int, root, p);
    assert(leaf_contains(nodes, leaf, p));
    assert forall|i: int, j: int|
        leaf_contains(nodes, i, p) && leaf_contains(nodes, j, p) implies i == j by {
        if i < j {
            assert(nodes[i].spec_end() <= nodes[j].spec_start());
        } else if j < i {
            assert(nodes[j].spec_end() <= nodes[i].spec_start());
        }
    }
}

/// Appends, in post-order, the nodes of the subtree over `[start, end)` and
/// returns the index of its root.
fn build_range(nodes: &mut Vec<BVHNode>, start: usize, end: usize, object_count: usize) -> (id:
    usize)
    requires
        start < end <= object_count,
        forall|i: int| 0 <= i < old(nodes).len() ==> #[trigger] node_wf(old(nodes)@, i, object_count as int),
        leaves_ordered(old(nodes)@),
        forall|i: int|
            0 <= i < old(nodes).len() && (#[trigger] old(nodes)@[i]) is FewObjects
                ==> old(nodes)@[i].spec_end() <= start,
    ensures
        final(nodes)@.len() == old(nodes)@.len() + node_count((end - start) as nat),
        id == final(nodes)@.len() - 1,
        final(nodes)@.subrange(0, old(nodes)@.len() as int) == old(nodes)@,
        final(nodes)@[id as int].spec_start() == start,
        final(nodes)@[id as int].spec_end() == end,
        forall|i: int| 0 <= i < final(nodes).len() ==> #[trigger] node_wf(final(nodes)@, i, object_count as int),
        leaves_ordered(final(nodes)@),
        forall|i: int|
            old(nodes).len() <= i < final(nodes).len() && (#[trigger] final(nodes)@[i]) is FewObjects
                ==> start <= final(nodes)@[i].spec_start() && final(nodes)@[i].spec_end() <= end,
    decreases end - start,
{
    let ghost old_nodes = nodes@;
    if end - start <= LEAF_CAPACITY {
        nodes.push(BVHNode::FewObjects { start, end });
        let ghost new_nodes = nodes@;
        assert forall|i: int| 0 <= i < new_nodes.len() implies #[trigger] node_wf(new_nodes, i, object_count as int) by {
            if i < old_nodes.len() {
                assert(node_wf(old_nodes, i, object_count as int));
            }
        }
        assert(new_nodes.subrange(0, old_nodes.len() as int) =~= old_nodes);
        nodes.len() - 1
    } else {
        let mid = start + (end - start) / 2;
        let left = build_range(nodes, start, mid, object_count);
        let ghost left_nodes = nodes@;
        assert forall|i: int|
            0 <= i < left_nodes.len() && (#[trigger] left_nodes[i]) is FewObjects
                implies left_nodes[i].spec_end() <= mid by {
            if i < old_nodes.len() {
                assert(left_nodes.subrange(0, old_nodes.len() as int)[i] == left_nodes[i]);
            }
        }
        let right = build_range(nodes, mid, end, object_count);
        let ghost right_nodes = nodes@;
        assert(right_nodes[left as int] == left_nodes[left as int]);
        nodes.push(BVHNode::Branch { start, end, left, right });
        let ghost new_nodes = nodes@;
        assert forall|i: int| 0 <= i < new_nodes.len() implies #[trigger] node_wf(new_nodes, i, object_count as int) by {
            if i < right_nodes.len() {
                assert(node_wf(right_nodes, i, object_count as int));
            }
        }
        assert(new_nodes.subrange(0, old_nodes.len() as int) =~= old_nodes) by {
            assert(left_nodes.subrange(0, old_nodes.len() as int) == old_nodes);
            assert(right_nodes.subrange(0, left_nodes.len() as int) == left_nodes);
        }
        assert forall|i: int|
            old_nodes.len() <= i < new_nodes.len() && (#[trigger] new_nodes[i]) is FewObjects
                implies start <= new_nodes[i].spec_start() && new_nodes[i].spec_end() <= end by {
            if i < left_nodes.len() {
                assert(right_nodes.subrange(0, left_nodes.len() as int)[i] == left_nodes[i]);
                assert(right_nodes[i] == left_nodes[i]);
            }
        }
        nodes.len() - 1
    }
}

} // verus!
