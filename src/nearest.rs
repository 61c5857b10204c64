use vstd::prelude::*;

use crate::bvh::{node_wf, split_point, BVHNode, BvhLayout};

verus! {

/// A hit distance counts when it lies beyond the self-intersection floor.
///
/// Distances are handed over as order-preserving integer keys: `a < b` on
/// keys exactly when the first distance is smaller.
pub open spec fn valid_hit(hit: Option<u64>, floor: u64) -> bool {
    hit matches Some(d) && d > floor
}

/// Some hit in `hits[lo..hi]` counts.
pub open spec fn has_valid_hit(hits: Seq<Option<u64>>, floor: u64, lo: int, hi: int) -> bool {
    exists|q: int| lo <= q < hi && #[trigger] valid_hit(hits[q], floor)
}

/// `(d, p)` is the nearest counting hit of `hits[lo..hi]`, the first one
/// where several are equally near.
pub open spec fn is_nearest(
    hits: Seq<Option<u64>>,
    floor: u64,
    lo: int,
    hi: int,
    d: u64,
    p: int,
) -> bool {
    &&& lo <= p < hi
    &&& hits[p] == Some(d)
    &&& d > floor
    &&& forall|q: int|
        lo <= q < hi && #[trigger] valid_hit(hits[q], floor) ==> d <= hits[q]->0 && (q < p ==> d
            < hits[q]->0)
}

/// What a linear scan of `hits[lo..hi]` finds.
pub open spec fn scan_nearest(hits: Seq<Option<u64>>, floor: u64, lo: int, hi: int) -> Option<
    (u64, int),
> {
    if has_valid_hit(hits, floor, lo, hi) {
        Some(choose|r: (u64, int)| is_nearest(hits, floor, lo, hi, r.0, r.1))
    } else {
        None
    }
}

/// How a branch merges its children's answers: the left one wins only when
/// it counts and is strictly nearer.
pub open spec fn spec_closer<T>(left: Option<(u64, T)>, right: Option<(u64, T)>, floor: u64) -> Option<(u64, T)> {
    match (left, right) {
        (Some(l), Some(r)) => if l.0 > floor && l.0 < r.0 {
            left
        } else if r.0 > floor {
            right
        } else {
            None
        },
        (Some(l), None) => if l.0 > floor {
            left
        } else {
            None
        },
        (None, Some(r)) => if r.0 > floor {
            right
        } else {
            None
        },
        (None, None) => None,
    }
}

/// Nearest hit of the subtree at node `i`: nothing where the ray misses the
/// node's box, a linear scan in a leaf, the merge of both children in a
/// branch.
pub open spec fn tree_nearest(
    nodes: Seq<BVHNode>,
    box_hit: Seq<bool>,
    hits: Seq<Option<u64>>,
    floor: u64,
    i: int,
) -> Option<(u64, int)>
    decreases i,
{
    if i < 0 || i >= nodes.len() || !box_hit[i] {
        None
    } else {
        match nodes[i] {
            BVHNode::FewObjects { start, end } => scan_nearest(hits, floor, start as int, end as int),
            BVHNode::Branch { left, right, .. } => if left < i && right < i {
                spec_closer(
                    tree_nearest(nodes, box_hit, hits, floor, left as int),
                    tree_nearest(nodes, box_hit, hits, floor, right as int),
                    floor,
                )
            } else {
                None
            },
        }
    }
}

/// A query answers the same whenever it is asked the same thing.
pub open spec fn same_answer<R, F: Fn(usize) -> R>(f: F) -> bool {
    forall|i: usize, a: R, b: R| #[trigger] f.ensures((i,), a) && #[trigger] f.ensures((i,), b) ==> a == b
}

/// The answers of a query to `0, 1, .., count - 1`.
pub open spec fn answers<R, F: Fn(usize) -> R>(f: F, count: nat) -> Seq<R> {
    Seq::new(count, |i: int| choose|r: R| #[trigger] f.ensures((i as usize,), r))
}

/// A found hit with its position as a mathematical integer.
pub open spec fn widen(r: Option<(u64, usize)>) -> Option<(u64, int)> {
    match r {
        Some(x) => Some((x.0, x.1 as int)),
        None => None,
    }
}

proof fn lemma_answer<R, F: Fn(usize) -> R>(f: F, count: nat, i: usize, v: R)
    requires
        same_answer(f),
        f.ensures((i,), v),
        i < count,
    ensures
        answers(f, count)[i as int] == v,
{
    let c = choose|r: R| #[trigger] f.ensures((i as usize,), r);
    assert(f.ensures((i,), c));
}

/// Nearest counting hit among positions `lo..hi` by a linear scan;
/// `object_hit(p)` gives the hit distance key of the object at `p`.
fn scan_range<H: Fn(usize) -> Option<u64>>(
    object_hit: &H,
    lo: usize,
    hi: usize,
    count: usize,
    floor: u64,
) -> (r: Option<(u64, usize)>)
    requires
        lo <= hi <= count,
        forall|p: usize| object_hit.requires((p,)),
    ensures
        same_answer(*object_hit) ==> {
            let hs = answers(*object_hit, count as nat);
            &&& r is None <==> !has_valid_hit(hs, floor, lo as int, hi as int)
            &&& r matches Some(found) ==> is_nearest(hs, floor, lo as int, hi as int, found.0, found.1 as int)
            &&& widen(r) == scan_nearest(hs, floor, lo as int, hi as int)
        },
{
    let ghost hs = answers(*object_hit, count as nat);
    let mut best: Option<(u64, usize)> = None;
    let mut i: usize = lo;
    while i < hi
        invariant
            lo <= i <= hi <= count,
            forall|p: usize| object_hit.requires((p,)),
            hs == answers(*object_hit, count as nat),
            same_answer(*object_hit) ==> (best is None <==> !has_valid_hit(hs, floor, lo as int, i as int)),
            same_answer(*object_hit) ==> (best matches Some(found) ==> is_nearest(hs, floor, lo as int, i as int, found.0, found.1 as int)),
        decreases hi - i,
    {
        let hit = object_hit(i);
        if let Some(t) = hit {
            let nearer = match best {
                None => true,
                Some(found) => t < found.0,
            };
            if t > floor && nearer {
                best = Some((t, i));
            }
        }
        proof {
            if same_answer(*object_hit) {
                lemma_answer(*object_hit, count as nat, i, hit);
                if valid_hit(hs[i as int], floor) {
                    assert(has_valid_hit(hs, floor, lo as int, i + 1));
                }
                if has_valid_hit(hs, floor, lo as int, i + 1) && !valid_hit(hs[i as int], floor) {
                    let q = choose|q: int| lo <= q < i + 1 && #[trigger] valid_hit(hs[q], floor);
                    assert(has_valid_hit(hs, floor, lo as int, i as int));
                }
            }
        }
        i = i + 1;
    }
    proof {
        if same_answer(*object_hit) {
            if let Some(found) = best {
                lemma_nearest_exists(hs, floor, lo as int, hi as int);
                let c = choose|c: (u64, int)| is_nearest(hs, floor, lo as int, hi as int, c.0, c.1);
                lemma_nearest_unique(hs, floor, lo as int, hi as int, c, (found.0, found.1 as int));
            }
        }
    }
    best
}

/// Nearest counting hit among `count` objects, scanning them all;
/// `object_hit(p)` gives the hit distance key of object `p`.
pub fn nearest_hit<H: Fn(usize) -> Option<u64>>(object_hit: &H, count: usize, floor: u64) -> (r:
    Option<(u64, usize)>)
    requires
        forall|p: usize| object_hit.requires((p,)),
    ensures
        same_answer(*object_hit) ==> {
            let hs = answers(*object_hit, count as nat);
            &&& r is None <==> !has_valid_hit(hs, floor, 0, count as int)
            &&& r matches Some(found) ==> is_nearest(hs, floor, 0, count as int, found.0, found.1 as int)
            &&& widen(r) == scan_nearest(hs, floor, 0, count as int)
        },
{
    scan_range(object_hit, 0, count, count, floor)
}

/// Merges the answers of a branch's two children.
pub fn closer(left: Option<(u64, usize)>, right: Option<(u64, usize)>, floor: u64) -> (r: Option<(u64, usize)>)
    ensures
        r == spec_closer(left, right, floor),
{
    match (left, right) {
        (Some(l), Some(r)) => if l.0 > floor && l.0 < r.0 {
            left
        } else if r.0 > floor {
            right
        } else {
            None
        },
        (Some(l), None) => if l.0 > floor {
            left
        } else {
            None
        },
        (None, Some(r)) => if r.0 > floor {
            right
        } else {
            None
        },
        (None, None) => None,
    }
}

/// The nearest counting hit of a run is unique.
proof fn lemma_nearest_unique(
    hits: Seq<Option<u64>>,
    floor: u64,
    lo: int,
    hi: int,
    a: (u64, int),
    b: (u64, int),
)
    requires
        is_nearest(hits, floor, lo, hi, a.0, a.1),
        is_nearest(hits, floor, lo, hi, b.0, b.1),
    ensures
        a == b,
{
    assert(valid_hit(hits[a.1], floor));
    assert(valid_hit(hits[b.1], floor));
}

impl BvhLayout {
    fn nearest_at<B: Fn(usize) -> bool, H: Fn(usize) -> Option<u64>>(
        &self,
        i: usize,
        box_hit: &B,
        object_hit: &H,
        floor: u64,
    ) -> (r: Option<(u64, usize)>)
        requires
            self.wf(),
            i < self.spec_nodes().len(),
            forall|k: usize| box_hit.requires((k,)),
            forall|p: usize| object_hit.requires((p,)),
        ensures
            same_answer(*box_hit) && same_answer(*object_hit) ==> widen(r) == tree_nearest(
                self.spec_nodes(),
                answers(*box_hit, self.spec_nodes().len()),
                answers(*object_hit, self.spec_object_count()),
                floor,
                i as int,
            ),
        decreases i,
    {
        let ghost nodes = self.spec_nodes();
        let ghost bs = answers(*box_hit, nodes.len());
        let ghost hs = answers(*object_hit, self.spec_object_count());
        let inside = box_hit(i);
        proof {
            if same_answer(*box_hit) {
                lemma_answer(*box_hit, nodes.len(), i, inside);
            }
            assert(node_wf(nodes, i as int, self.spec_object_count() as int));
        }
        if !inside {
            return None;
        }
        match self.node(i) {
            BVHNode::FewObjects { start, end } => {
                scan_range(object_hit, start, end, self.object_count(), floor)
            },
            BVHNode::Branch { left, right, .. } => {
                let l = self.nearest_at(left, box_hit, object_hit, floor);
                let rr = self.nearest_at(right, box_hit, object_hit, floor);
                closer(l, rr, floor)
            },
        }
    }

    /// Nearest counting hit over the hierarchy. `box_hit(i)` says whether the
    /// ray meets node `i`'s box and `object_hit(p)` gives the hit distance key
    /// of the object at position `p`. Subtrees whose box the ray misses are
    /// skipped; a branch keeps the nearer of its children's answers.
    pub fn nearest<B: Fn(usize) -> bool, H: Fn(usize) -> Option<u64>>(
        &self,
        box_hit: &B,
        object_hit: &H,
        floor: u64,
    ) -> (r: Option<(u64, usize)>)
        requires
            self.wf(),
            forall|k: usize| box_hit.requires((k,)),
            forall|p: usize| object_hit.requires((p,)),
        ensures
            same_answer(*box_hit) && same_answer(*object_hit) ==> widen(r) == tree_nearest(
                self.spec_nodes(),
                answers(*box_hit, self.spec_nodes().len()),
                answers(*object_hit, self.spec_object_count()),
                floor,
                self.spec_nodes().len() - 1,
            ),
    {
        let root = self.root();
        self.nearest_at(root, box_hit, object_hit, floor)
    }
}

/// A run of hits that has a counting hit has a nearest one.
proof fn lemma_nearest_exists(hits: Seq<Option<u64>>, floor: u64, lo: int, hi: int)
    requires
        0 <= lo <= hi <= hits.len(),
        has_valid_hit(hits, floor, lo, hi),
    ensures
        exists|r: (u64, int)| is_nearest(hits, floor, lo, hi, r.0, r.1),
    decreases hi - lo,
{
    let last = hi - 1;
    if has_valid_hit(hits, floor, lo, last) {
        lemma_nearest_exists(hits, floor, lo, last);
        let r = choose|r: (u64, int)| is_nearest(hits, floor, lo, last, r.0, r.1);
        if valid_hit(hits[last], floor) && hits[last]->0 < r.0 {
            let w = (hits[last]->0, last);
            assert(is_nearest(hits, floor, lo, hi, w.0, w.1));
        } else {
            assert(is_nearest(hits, floor, lo, hi, r.0, r.1));
        }
    } else {
        let q = choose|q: int| lo <= q < hi && #[trigger] valid_hit(hits[q], floor);
        assert(q == last);
        let w = (hits[last]->0, last);
        assert(is_nearest(hits, floor, lo, hi, w.0, w.1));
    }
}

/// `(d, p)` is a counting hit of `hits[lo..hi]` and none there is nearer.
pub open spec fn is_nearest_distance(
    hits: Seq<Option<u64>>,
    floor: u64,
    lo: int,
    hi: int,
    d: u64,
    p: int,
) -> bool {
    &&& lo <= p < hi
    &&& hits[p] == Some(d)
    &&& d > floor
    &&& forall|q: int| lo <= q < hi && #[trigger] valid_hit(hits[q], floor) ==> d <= hits[q]->0
}

/// The subtree at node `i` finds a hit exactly when its objects have one, and
/// what it finds is as near as any of them.
proof fn lemma_subtree_nearest(
    nodes: Seq<BVHNode>,
    n: int,
    box_hit: Seq<bool>,
    hits: Seq<Option<u64>>,
    floor: u64,
    i: int,
)
    requires
        0 <= i < nodes.len(),
        hits.len() == n,
        box_hit.len() == nodes.len(),
        forall|k: int| 0 <= k < nodes.len() ==> #[trigger] node_wf(nodes, k, n),
        forall|k: int|
            0 <= k < nodes.len() && !(#[trigger] box_hit[k]) ==> !has_valid_hit(
                hits,
                floor,
                nodes[k].spec_start() as int,
                nodes[k].spec_end() as int,
            ),
    ensures
        ({
            let (lo, hi) = (nodes[i].spec_start() as int, nodes[i].spec_end() as int);
            &&& tree_nearest(nodes, box_hit, hits, floor, i) is None <==> !has_valid_hit(hits, floor, lo, hi)
            &&& tree_nearest(nodes, box_hit, hits, floor, i) matches Some(r) ==> is_nearest_distance(hits, floor, lo, hi, r.0, r.1)
        }),
    decreases i,
{
    let lo = nodes[i].spec_start() as int;
    let hi = nodes[i].spec_end() as int;
    assert(node_wf(nodes, i, n));
    if !box_hit[i] {
    } else {
        match nodes[i] {
            BVHNode::FewObjects { start, end } => {
                if has_valid_hit(hits, floor, lo, hi) {
                    lemma_nearest_exists(hits, floor, lo, hi);
                }
            },
            BVHNode::Branch { start, end, left, right } => {
                let mid = split_point(lo, hi);
                lemma_subtree_nearest(nodes, n, box_hit, hits, floor, left as int);
                lemma_subtree_nearest(nodes, n, box_hit, hits, floor, right as int);
                let l = tree_nearest(nodes, box_hit, hits, floor, left as int);
                let r = tree_nearest(nodes, box_hit, hits, floor, right as int);
                assert forall|q: int| lo <= q < hi && #[trigger] valid_hit(hits[q], floor) implies
                    has_valid_hit(hits, floor, lo, mid) || has_valid_hit(hits, floor, mid, hi) by {
                    if q < mid {
                        assert(has_valid_hit(hits, floor, lo, mid));
                    } else {
                        assert(has_valid_hit(hits, floor, mid, hi));
                    }
                }
                if has_valid_hit(hits, floor, lo, mid) {
                    let q = choose|q: int| lo <= q < mid && #[trigger] valid_hit(hits[q], floor);
                    assert(has_valid_hit(hits, floor, lo, hi));
                }
                if has_valid_hit(hits, floor, mid, hi) {
                    let q = choose|q: int| mid <= q < hi && #[trigger] valid_hit(hits[q], floor);
                    assert(has_valid_hit(hits, floor, lo, hi));
                }
            },
        }
    }
}

/// Pruning by boxes loses no hit. Where the ray misses a node's box only when
/// none of that node's objects has a counting hit, the hierarchy finds a hit
/// exactly when the brute-force scan of all objects does, at the same
/// distance.
pub proof fn lemma_hierarchy_agrees_with_scan(
    layout: BvhLayout,
    box_hit: Seq<bool>,
    hits: Seq<Option<u64>>,
    floor: u64,
)
    requires
        layout.wf(),
        hits.len() == layout.spec_object_count(),
        box_hit.len() == layout.spec_nodes().len(),
        forall|k: int|
            0 <= k < box_hit.len() && !(#[trigger] box_hit[k]) ==> !has_valid_hit(
                hits,
                floor,
                layout.spec_nodes()[k].spec_start() as int,
                layout.spec_nodes()[k].spec_end() as int,
            ),
    ensures
        ({
            let nodes = layout.spec_nodes();
            let n = hits.len() as int;
            let tree = tree_nearest(nodes, box_hit, hits, floor, nodes.len() - 1);
            let scan = scan_nearest(hits, floor, 0, n);
            &&& tree is None <==> scan is None
            &&& tree matches Some(t) ==> scan matches Some(s) && t.0 == s.0 && 0 <= t.1 < n && hits[t.1] == Some(t.0)
        }),
{
    let nodes = layout.spec_nodes();
    let n = hits.len() as int;
    let root = nodes.len() - 1;
    lemma_subtree_nearest(nodes, n, box_hit, hits, floor, root);
    if has_valid_hit(hits, floor, 0, n) {
        lemma_nearest_exists(hits, floor, 0, n);
        let s = scan_nearest(hits, floor, 0, n)->0;
        let t = tree_nearest(nodes, box_hit, hits, floor, root)->0;
        assert(valid_hit(hits[s.1], floor));
        assert(valid_hit(hits[t.1], floor));
    }
}

} // verus!
