use raytracer::{closer, nearest_hit, BVHNode, BvhLayout};

const FLOOR: u64 = 10;

fn brute_force(hits: &[Option<u64>]) -> Option<(u64, usize)> {
    nearest_hit(&|p: usize| hits[p], hits.len(), FLOOR)
}

/// Box answers that are exact: a node's box is met when one of its objects
/// has a counting hit.
fn exact_boxes(layout: &BvhLayout, hits: &[Option<u64>]) -> Vec<bool> {
    (0..layout.node_total())
        .map(|i| {
            let node = layout.node(i);
            (node.start()..node.end()).any(|p| matches!(hits[p], Some(d) if d > FLOOR))
        })
        .collect()
}

#[test]
fn scan_finds_nothing_in_an_empty_run() {
    assert_eq!(nearest_hit(&|_p: usize| Some(50), 0, FLOOR), None);
}

#[test]
fn scan_skips_misses_and_hits_below_the_floor() {
    let hits = [None, Some(3), Some(10), None];
    assert_eq!(brute_force(&hits), None);
}

#[test]
fn scan_picks_the_nearest_counting_hit() {
    let hits = [Some(40), Some(5), Some(25), None, Some(30)];
    assert_eq!(brute_force(&hits), Some((25, 2)));
}

#[test]
fn scan_keeps_the_first_of_equal_hits() {
    let hits = [Some(40), Some(20), Some(20)];
    assert_eq!(brute_force(&hits), Some((20, 1)));
}

#[test]
fn closer_prefers_the_strictly_nearer_left() {
    assert_eq!(closer(Some((20, 1)), Some((30, 7)), FLOOR), Some((20, 1)));
    assert_eq!(closer(Some((30, 1)), Some((20, 7)), FLOOR), Some((20, 7)));
    assert_eq!(closer(Some((20, 1)), Some((20, 7)), FLOOR), Some((20, 7)));
}

#[test]
fn closer_drops_answers_below_the_floor() {
    assert_eq!(closer(Some((5, 1)), Some((30, 7)), FLOOR), Some((30, 7)));
    assert_eq!(closer(Some((5, 1)), None, FLOOR), None);
    assert_eq!(closer(None, Some((10, 2)), FLOOR), None);
    assert_eq!(closer(None, Some((11, 2)), FLOOR), Some((11, 2)));
    assert_eq!(closer(None, None, FLOOR), None);
}

#[test]
fn rays_missing_every_box_find_nothing() {
    let layout = BvhLayout::new(40).unwrap();
    let hits: Vec<Option<u64>> = vec![None; 40];
    assert_eq!(layout.nearest(&|_i: usize| false, &|p: usize| hits[p], FLOOR), None);
    assert_eq!(brute_force(&hits), None);
}

#[test]
fn one_hit_among_a_thousand_matches_the_scan_exactly() {
    let layout = BvhLayout::new(1000).unwrap();
    let mut hits: Vec<Option<u64>> = vec![None; 1000];
    hits[637] = Some(4242);
    let boxes = exact_boxes(&layout, &hits);
    let tree = layout.nearest(&|i: usize| boxes[i], &|p: usize| hits[p], FLOOR);
    assert_eq!(tree, Some((4242, 637)));
    assert_eq!(tree, brute_force(&hits));
    // Only the leaf of position 637 and the branches above it are entered.
    let entered = boxes.iter().filter(|&&b| b).count();
    assert!(entered < 20);
}

#[test]
fn hierarchy_and_scan_agree_on_distance_for_many_runs() {
    for n in 1..120usize {
        let layout = BvhLayout::new(n).unwrap();
        let hits: Vec<Option<u64>> = (0..n)
            .map(|p| {
                let v = (p * 7919 + n * 104729) % 97;
                if v % 3 == 0 { None } else { Some(v as u64) }
            })
            .collect();
        let boxes = exact_boxes(&layout, &hits);
        let tree = layout.nearest(&|i: usize| boxes[i], &|p: usize| hits[p], FLOOR);
        let all_boxes = layout.nearest(&|_i: usize| true, &|p: usize| hits[p], FLOOR);
        let scan = brute_force(&hits);
        assert_eq!(tree.map(|t| t.0), scan.map(|s| s.0));
        assert_eq!(all_boxes.map(|t| t.0), scan.map(|s| s.0));
        if let Some((d, p)) = tree {
            assert_eq!(hits[p], Some(d));
        }
    }
}

#[test]
fn missed_subtree_is_not_entered() {
    // Six objects: leaves [0, 3) and [3, 6) under one branch.
    let layout = BvhLayout::new(6).unwrap();
    assert_eq!(layout.node(0), BVHNode::FewObjects { start: 0, end: 3 });
    let hits = [Some(50), None, None, Some(90), None, None];
    let left_missed = layout.nearest(&|i: usize| i != 0, &|p: usize| hits[p], FLOOR);
    assert_eq!(left_missed, Some((90, 3)));
}
