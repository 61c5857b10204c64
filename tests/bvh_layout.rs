use raytracer::{BVHNode, BvhLayout, LEAF_CAPACITY};

fn leaves(layout: &BvhLayout) -> Vec<(usize, usize)> {
    let mut out = Vec::new();
    for i in 0..layout.node_total() {
        if let BVHNode::FewObjects { start, end } = layout.node(i) {
            out.push((start, end));
        }
    }
    out
}

fn expected_node_count(m: usize) -> usize {
    if m <= LEAF_CAPACITY {
        1
    } else {
        1 + expected_node_count(m / 2) + expected_node_count(m - m / 2)
    }
}

#[test]
fn empty_scene_has_no_hierarchy() {
    assert!(BvhLayout::new(0).is_none());
}

#[test]
fn single_object_is_one_leaf() {
    let layout = BvhLayout::new(1).unwrap();
    assert_eq!(layout.node_total(), 1);
    assert_eq!(layout.root(), 0);
    assert_eq!(layout.node(0), BVHNode::FewObjects { start: 0, end: 1 });
}

#[test]
fn five_objects_stay_in_one_leaf() {
    let layout = BvhLayout::new(5).unwrap();
    assert_eq!(layout.node_total(), 1);
    assert_eq!(layout.node(layout.root()), BVHNode::FewObjects { start: 0, end: 5 });
}

#[test]
fn six_objects_split_at_the_midpoint() {
    let layout = BvhLayout::new(6).unwrap();
    assert_eq!(layout.node_total(), 3);
    assert_eq!(layout.root(), 2);
    assert_eq!(layout.node(0), BVHNode::FewObjects { start: 0, end: 3 });
    assert_eq!(layout.node(1), BVHNode::FewObjects { start: 3, end: 6 });
    assert_eq!(layout.node(2), BVHNode::Branch { start: 0, end: 6, left: 0, right: 1 });
}

#[test]
fn eleven_objects_put_the_smaller_half_left() {
    let layout = BvhLayout::new(11).unwrap();
    assert_eq!(layout.node_total(), 5);
    assert_eq!(layout.node(0), BVHNode::FewObjects { start: 0, end: 5 });
    assert_eq!(layout.node(1), BVHNode::FewObjects { start: 5, end: 8 });
    assert_eq!(layout.node(2), BVHNode::FewObjects { start: 8, end: 11 });
    assert_eq!(layout.node(3), BVHNode::Branch { start: 5, end: 11, left: 1, right: 2 });
    assert_eq!(layout.node(4), BVHNode::Branch { start: 0, end: 11, left: 0, right: 3 });
    assert_eq!(layout.node(4).start(), 0);
    assert_eq!(layout.node(4).end(), 11);
}

#[test]
fn thousand_objects_each_lie_in_exactly_one_leaf() {
    let layout = BvhLayout::new(1000).unwrap();
    assert_eq!(layout.object_count(), 1000);
    assert_eq!(layout.node_total(), expected_node_count(1000));
    let root = layout.node(layout.root());
    assert_eq!((root.start(), root.end()), (0, 1000));
    let mut hits = vec![0usize; 1000];
    for (start, end) in leaves(&layout) {
        assert!(start < end && end - start <= LEAF_CAPACITY);
        for p in start..end {
            hits[p] += 1;
        }
    }
    assert!(hits.iter().all(|&h| h == 1));
}

#[test]
fn children_precede_their_parent() {
    let layout = BvhLayout::new(137).unwrap();
    for i in 0..layout.node_total() {
        if let BVHNode::Branch { start, end, left, right } = layout.node(i) {
            assert!(left < i && right < i);
            let mid = start + (end - start) / 2;
            assert_eq!((layout.node(left).start(), layout.node(left).end()), (start, mid));
            assert_eq!((layout.node(right).start(), layout.node(right).end()), (mid, end));
        }
    }
}
