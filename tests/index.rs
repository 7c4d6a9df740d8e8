use std::collections::BTreeSet;

use spatial_queries::{
    Aabb, Bvh, BvhNode, BvhNodeKind, Naive, PointRecord, Position, SpatialLookupAlgorithm,
    SpatialLookupState, best_axis, calculate_aabb, collect_within, is_within, sort_on_axis,
};

fn pos(x: i32, y: i32, z: i32) -> Position {
    Position { x, y, z }
}

fn rec(entity: u64, x: i32, y: i32, z: i32) -> PointRecord {
    PointRecord { entity, position: pos(x, y, z) }
}

fn set(ids: Vec<u64>) -> BTreeSet<u64> {
    ids.into_iter().collect()
}

fn leaf_count(node: &BvhNode) -> usize {
    match &node.kind {
        BvhNodeKind::Leaf(_) => 1,
        BvhNodeKind::Branch(l, r) => leaf_count(l) + leaf_count(r),
    }
}

fn depth(node: &BvhNode) -> usize {
    match &node.kind {
        BvhNodeKind::Leaf(_) => 0,
        BvhNodeKind::Branch(l, r) => 1 + depth(l).max(depth(r)),
    }
}

fn leaf_sizes(node: &BvhNode, out: &mut Vec<usize>) {
    match &node.kind {
        BvhNodeKind::Leaf(v) => out.push(v.len()),
        BvhNodeKind::Branch(l, r) => {
            leaf_sizes(l, out);
            leaf_sizes(r, out);
        }
    }
}

fn boxes_hold(node: &BvhNode) -> Vec<PointRecord> {
    let recs = match &node.kind {
        BvhNodeKind::Leaf(v) => v.clone(),
        BvhNodeKind::Branch(l, r) => {
            let mut a = boxes_hold(l);
            a.extend(boxes_hold(r));
            a
        }
    };
    for r in &recs {
        let p = r.position;
        assert!(node.aabb.min.x <= p.x && p.x <= node.aabb.max.x);
        assert!(node.aabb.min.y <= p.y && p.y <= node.aabb.max.y);
        assert!(node.aabb.min.z <= p.z && p.z <= node.aabb.max.z);
    }
    recs
}

/// Small deterministic generator for the randomised scenarios.
struct Lcg(u64);

impl Lcg {
    fn next(&mut self) -> u64 {
        self.0 = self.0.wrapping_mul(6364136223846793005).wrapping_add(1442695040888963407);
        self.0 >> 33
    }

    fn below(&mut self, n: u64) -> u64 {
        self.next() % n
    }
}

fn random_points(seed: u64, count: u64, side: i32) -> Vec<PointRecord> {
    let mut g = Lcg(seed);
    (0..count)
        .map(|i| {
            rec(
                i,
                g.below(side as u64) as i32,
                g.below(side as u64) as i32,
                g.below(side as u64) as i32,
            )
        })
        .collect()
}

fn three_points() -> Vec<PointRecord> {
    vec![rec(1, 0, 0, 0), rec(2, 5, 0, 0), rec(3, 0, 5, 0)]
}

#[test]
fn three_points_single_leaf() {
    let mut bvh = Bvh::new(10, 10);
    bvh.prepare(&three_points());
    let root = bvh.root().expect("prepared with records");
    match &root.kind {
        BvhNodeKind::Leaf(v) => assert_eq!(v.len(), 3),
        BvhNodeKind::Branch(_, _) => panic!("three records fit in one leaf"),
    }
    assert_eq!(set(bvh.entities_in_radius(pos(0, 0, 0), 1)), BTreeSet::from([1]));
    assert_eq!(set(bvh.entities_in_radius(pos(0, 0, 0), 6)), BTreeSet::from([1, 2, 3]));
}

#[test]
fn bvh_matches_naive_on_random_cube() {
    // 20 x 20 x 20 cube in thousandths
    let points = random_points(7, 1000, 20_000);
    let mut bvh = Bvh::new(10, 10);
    let mut naive = Naive::new();
    bvh.prepare(&points);
    naive.prepare(&points);
    let mut g = Lcg(99);
    for _ in 0..100 {
        let center = pos(
            g.below(20_000) as i32,
            g.below(20_000) as i32,
            g.below(20_000) as i32,
        );
        let radius = g.below(6_000) as u32;
        let from_bvh = bvh.entities_in_radius(center, radius);
        let from_naive = naive.entities_in_radius(center, radius);
        assert_eq!(from_bvh.len(), from_naive.len());
        assert_eq!(set(from_bvh), set(from_naive));
    }
}

#[test]
fn four_diagonal_points_split_evenly() {
    let points = vec![rec(0, 0, 0, 0), rec(1, 1, 1, 0), rec(2, 2, 2, 0), rec(3, 3, 3, 0)];
    let mut bvh = Bvh::new(1, 10);
    bvh.prepare(&points);
    let root = bvh.root().unwrap();
    assert_eq!(leaf_count(root), 4);
    assert_eq!(depth(root), 2);
    match &root.kind {
        BvhNodeKind::Branch(l, r) => {
            assert_eq!(l.aabb.max.x, 1);
            assert_eq!(r.aabb.min.x, 2);
        }
        BvhNodeKind::Leaf(_) => panic!("four records with one per leaf"),
    }
}

#[test]
fn four_points_on_x_axis_one_per_leaf() {
    // every candidate box is flat here, so all costs tie at zero
    let points = vec![rec(0, 0, 0, 0), rec(1, 1, 0, 0), rec(2, 2, 0, 0), rec(3, 3, 0, 0)];
    let mut bvh = Bvh::new(1, 10);
    bvh.prepare(&points);
    let root = bvh.root().unwrap();
    assert_eq!(leaf_count(root), 4);
    let mut sizes = Vec::new();
    leaf_sizes(root, &mut sizes);
    assert_eq!(sizes, vec![1, 1, 1, 1]);
    assert_eq!(depth(root), 3);
}

#[test]
fn zero_radius_includes_exact_point() {
    let points = vec![rec(1, 3, 4, 5), rec(2, 3, 4, 6), rec(3, 10, 10, 10)];
    let mut bvh = Bvh::new(1, 10);
    let mut naive = Naive::new();
    bvh.prepare(&points);
    naive.prepare(&points);
    assert_eq!(bvh.entities_in_radius(pos(3, 4, 5), 0), vec![1]);
    assert_eq!(naive.entities_in_radius(pos(3, 4, 5), 0), vec![1]);
}

#[test]
fn boundary_distance_is_included() {
    let points = vec![rec(1, 3, 4, 0), rec(2, 3, 5, 0)];
    let mut naive = Naive::new();
    naive.prepare(&points);
    assert_eq!(naive.entities_in_radius(pos(0, 0, 0), 5), vec![1]);
    let mut bvh = Bvh::new(1, 10);
    bvh.prepare(&points);
    assert_eq!(bvh.entities_in_radius(pos(0, 0, 0), 5), vec![1]);
}

#[test]
fn repeated_query_gives_same_answer() {
    let points = random_points(3, 200, 1000);
    let mut bvh = Bvh::new(4, 10);
    bvh.prepare(&points);
    let a = bvh.entities_in_radius(pos(500, 500, 500), 300);
    let b = bvh.entities_in_radius(pos(500, 500, 500), 300);
    assert!(!a.is_empty());
    assert_eq!(a, b);
}

#[test]
fn rebuild_replaces_previous_points() {
    let first = vec![rec(1, 0, 0, 0), rec(2, 1, 1, 1)];
    let second = vec![rec(3, 100, 100, 100), rec(4, 0, 0, 1)];
    let mut bvh = Bvh::new(1, 10);
    bvh.prepare(&first);
    assert_eq!(set(bvh.entities_in_radius(pos(0, 0, 0), 2)), BTreeSet::from([1, 2]));
    bvh.prepare(&second);
    assert_eq!(set(bvh.entities_in_radius(pos(0, 0, 0), 2)), BTreeSet::from([4]));
    let mut naive = Naive::new();
    naive.prepare(&first);
    naive.prepare(&second);
    assert_eq!(naive.entities_in_radius(pos(0, 0, 0), 2), vec![4]);
}

#[test]
fn empty_input_answers_nothing() {
    let mut bvh = Bvh::new(10, 10);
    bvh.prepare(&[]);
    assert!(bvh.is_prepared());
    assert!(bvh.root().is_none());
    assert!(bvh.entities_in_radius(pos(0, 0, 0), u32::MAX).is_empty());
    let mut naive = Naive::new();
    naive.prepare(&[]);
    assert!(naive.entities_in_radius(pos(0, 0, 0), u32::MAX).is_empty());
}

#[test]
fn unprepared_query_answers_nothing() {
    let bvh = Bvh::new(10, 10);
    assert!(!bvh.is_prepared());
    assert!(bvh.entities_in_radius(pos(0, 0, 0), 100).is_empty());
    let naive = Naive::default();
    assert!(!naive.is_prepared());
    assert!(naive.entities_in_radius(pos(0, 0, 0), 100).is_empty());
    let state = SpatialLookupState::new(SpatialLookupAlgorithm::Bvh(Bvh::new(10, 10)));
    assert!(!state.is_prepared());
    assert!(state.entities_in_radius(pos(0, 0, 0), 100).is_empty());
}

#[test]
fn configuration_is_kept() {
    let bvh = Bvh::with_entities_per_leaf(16);
    assert_eq!(bvh.entities_per_leaf(), 16);
    assert_eq!(bvh.max_split_samples_per_axis(), 10);
    let mut custom = Bvh::new(3, 4);
    custom.prepare(&random_points(5, 50, 100));
    assert_eq!(custom.entities_per_leaf(), 3);
    assert_eq!(custom.max_split_samples_per_axis(), 4);
}

#[test]
fn leaves_respect_capacity() {
    for cap in [1usize, 2, 3, 7, 10] {
        let points = random_points(11 + cap as u64, 300, 500);
        let mut bvh = Bvh::new(cap, 10);
        bvh.prepare(&points);
        let mut sizes = Vec::new();
        leaf_sizes(bvh.root().unwrap(), &mut sizes);
        assert!(sizes.iter().all(|&s| s >= 1 && s <= cap));
        assert_eq!(sizes.iter().sum::<usize>(), 300);
    }
}

#[test]
fn root_box_is_tight_and_holds_all() {
    let points = vec![rec(1, -5, 2, 9), rec(2, 7, -3, 4), rec(3, 0, 8, -6), rec(4, 1, 1, 1)];
    let mut bvh = Bvh::new(1, 10);
    bvh.prepare(&points);
    let root = bvh.root().unwrap();
    assert_eq!(root.aabb, Aabb { min: pos(-5, -3, -6), max: pos(7, 8, 9) });
    let held = boxes_hold(root);
    let mut ids: Vec<u64> = held.iter().map(|r| r.entity).collect();
    ids.sort();
    assert_eq!(ids, vec![1, 2, 3, 4]);
}

#[test]
fn bounds_of_points() {
    assert_eq!(calculate_aabb(&[]), Aabb { min: pos(0, 0, 0), max: pos(0, 0, 0) });
    assert_eq!(
        calculate_aabb(&[rec(1, 5, 6, 7)]),
        Aabb { min: pos(5, 6, 7), max: pos(5, 6, 7) }
    );
    assert_eq!(
        calculate_aabb(&[rec(1, 5, 6, 7), rec(2, 2, 9, 7)]),
        Aabb { min: pos(2, 6, 7), max: pos(5, 9, 7) }
    );
}

#[test]
fn surface_area_of_box() {
    let b = Aabb { min: pos(0, 0, 0), max: pos(2, 3, 4) };
    assert_eq!(b.total_surface_area(), 52);
    let flat = Aabb { min: pos(1, 1, 1), max: pos(4, 1, 6) };
    assert_eq!(flat.total_surface_area(), 30);
    let widest = Aabb { min: pos(i32::MIN, i32::MIN, i32::MIN), max: pos(i32::MAX, i32::MAX, i32::MAX) };
    let e = u32::MAX as i128;
    assert_eq!(widest.total_surface_area(), 6 * e * e);
}

#[test]
fn sphere_meets_box() {
    let b = Aabb { min: pos(0, 0, 0), max: pos(10, 10, 10) };
    assert!(b.intersects_sphere(pos(5, 5, 5), 0));
    assert!(b.intersects_sphere(pos(13, 14, 5), 5));
    assert!(!b.intersects_sphere(pos(13, 14, 5), 4));
    assert!(b.intersects_sphere(pos(-3, 5, 5), 3));
    assert!(!b.intersects_sphere(pos(-3, 5, 5), 2));
    let far = Aabb { min: pos(i32::MAX, i32::MAX, i32::MAX), max: pos(i32::MAX, i32::MAX, i32::MAX) };
    assert!(!far.intersects_sphere(pos(i32::MIN, i32::MIN, i32::MIN), u32::MAX));
}

#[test]
fn distance_test_at_extremes() {
    assert!(is_within(pos(3, 4, 0), pos(0, 0, 0), 5));
    assert!(!is_within(pos(3, 4, 1), pos(0, 0, 0), 5));
    assert!(is_within(pos(i32::MAX, 0, 0), pos(i32::MIN, 0, 0), u32::MAX));
    assert!(!is_within(pos(i32::MAX, 0, 0), pos(i32::MIN, 0, 0), u32::MAX - 1));
    assert!(!is_within(pos(i32::MAX, i32::MAX, 0), pos(i32::MIN, i32::MIN, 0), u32::MAX));
}

#[test]
fn axis_tie_break() {
    assert_eq!(best_axis(1, 2, 3), 0);
    assert_eq!(best_axis(1, 1, 3), 1);
    assert_eq!(best_axis(1, 3, 1), 2);
    assert_eq!(best_axis(2, 1, 1), 2);
    assert_eq!(best_axis(2, 1, 3), 1);
    assert_eq!(best_axis(5, 5, 5), 2);
}

#[test]
fn sort_keeps_equal_keys_in_order() {
    let mut v = vec![rec(1, 3, 0, 0), rec(2, 1, 0, 0), rec(3, 3, 0, 0), rec(4, 0, 0, 0), rec(5, 1, 0, 0)];
    sort_on_axis(&mut v, 0);
    let ids: Vec<u64> = v.iter().map(|r| r.entity).collect();
    assert_eq!(ids, vec![4, 2, 5, 1, 3]);
    let mut w = vec![rec(1, 0, 0, 9), rec(2, 0, 0, -1)];
    sort_on_axis(&mut w, 2);
    assert_eq!(w[0].entity, 2);
}

#[test]
fn collect_keeps_order() {
    let v = vec![rec(9, 1, 0, 0), rec(8, 50, 0, 0), rec(7, 0, 1, 0)];
    assert_eq!(collect_within(&v, pos(0, 0, 0), 2), vec![9, 7]);
}

#[test]
fn lookup_state_with_each_algorithm() {
    let points = random_points(21, 300, 1000);
    let mut by_bvh = SpatialLookupState::new(SpatialLookupAlgorithm::Bvh(Bvh::new(8, 10)));
    let mut by_scan = SpatialLookupState::default();
    assert!(by_bvh.entities_in_radius(pos(0, 0, 0), 5000).is_empty());
    by_bvh.prepare(&points);
    by_scan.prepare(&points);
    assert!(by_bvh.is_prepared() && by_scan.is_prepared());
    let a = set(by_bvh.entities_in_radius(pos(400, 600, 200), 250));
    let b = set(by_scan.entities_in_radius(pos(400, 600, 200), 250));
    assert!(!a.is_empty());
    assert_eq!(a, b);
    by_bvh.prepare(&[]);
    assert!(by_bvh.entities_in_radius(pos(400, 600, 200), 250).is_empty());
}
