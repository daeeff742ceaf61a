use octree::{Octree, MAX_DEPTH};

fn sorted(mut v: Vec<u32>) -> Vec<u32> {
    v.sort();
    v
}

fn three_points() -> Octree {
    let mut t = Octree::new(0, 0, 0, 10, 10, 10, 2);
    t.insert(1, 1, 1, 1);
    t.insert(2, 2, 2, 2);
    t.insert(9, 9, 9, 3);
    t
}

#[test]
fn subdivision_keeps_every_point() {
    let t = three_points();
    assert_eq!(t.len(), 3);
    assert_eq!(sorted(t.query_aabb(0, 0, 0, 3, 3, 3)), vec![1, 2]);
    assert_eq!(t.query_aabb(8, 8, 8, 10, 10, 10), vec![3]);
    assert_eq!(t.all_points(), vec![1, 1, 1, 2, 2, 2, 9, 9, 9]);
}

#[test]
fn leaf_holds_up_to_capacity_before_splitting() {
    let mut t = Octree::new(0, 0, 0, 10, 10, 10, 2);
    t.insert(1, 1, 1, 1);
    t.insert(2, 2, 2, 2);
    assert_eq!(t.all_node_aabbs(), vec![0, 0, 0, 10, 10, 10]);
    t.insert(9, 9, 9, 3);
    assert_eq!(t.all_node_aabbs().len(), 9 * 6);
}

#[test]
fn dump_lists_root_then_octants_in_index_order() {
    let t = three_points();
    let expected: Vec<i32> = vec![
        0, 0, 0, 10, 10, 10, //
        0, 0, 0, 5, 5, 5, //
        5, 0, 0, 10, 5, 5, //
        0, 5, 0, 5, 10, 5, //
        5, 5, 0, 10, 10, 5, //
        0, 0, 5, 5, 5, 10, //
        5, 0, 5, 10, 5, 10, //
        0, 5, 5, 5, 10, 10, //
        5, 5, 5, 10, 10, 10,
    ];
    assert_eq!(t.all_node_aabbs(), expected);
}

#[test]
fn duplicate_points_stop_splitting_at_the_depth_limit() {
    let mut t = Octree::new(0, 0, 0, 10, 10, 10, 1);
    t.insert(1, 1, 1, 1);
    t.insert(1, 1, 1, 2);
    t.insert(1, 1, 1, 3);
    assert_eq!(t.len(), 3);
    assert_eq!(t.query_aabb(1, 1, 1, 1, 1, 1), vec![1, 2, 3]);
    assert_eq!(t.query_sphere(1, 1, 1, 0), vec![1, 2, 3]);
    assert_eq!(t.all_node_aabbs().len(), 6 * (1 + 8 * MAX_DEPTH));
    assert_eq!(t.all_points(), vec![1, 1, 1, 1, 1, 1, 1, 1, 1]);
}

#[test]
fn inserted_points_are_found_by_covering_boxes() {
    let mut t = Octree::new(-100, -100, -100, 100, 100, 100, 1);
    let pts = [(-50, 20, 3, 10u32), (7, -7, 7, 11), (100, 100, 100, 12), (-100, 0, 99, 13), (0, 0, 0, 14)];
    for &(x, y, z, id) in pts.iter() {
        t.insert(x, y, z, id);
    }
    for &(x, y, z, id) in pts.iter() {
        assert!(t.query_aabb(x, y, z, x, y, z).contains(&id));
        assert!(t.query_aabb(x - 1, y - 1, z - 1, x + 1, y + 1, z + 1).contains(&id));
    }
    assert_eq!(sorted(t.query_aabb(-100, -100, -100, 100, 100, 100)), vec![10, 11, 12, 13, 14]);
    assert_eq!(t.len(), 5);
}

#[test]
fn points_outside_the_universe_are_dropped() {
    let mut t = Octree::new(0, 0, 0, 10, 10, 10, 4);
    t.insert(5, 5, 5, 1);
    t.insert(11, 5, 5, 2);
    t.insert(5, -1, 5, 3);
    t.insert(5, 5, 2147483647, 4);
    assert_eq!(t.len(), 1);
    assert_eq!(t.query_aabb(-2147483648, -2147483648, -2147483648, 2147483647, 2147483647, 2147483647), vec![1]);
    assert_eq!(t.query_sphere(5, 5, 5, 1000), vec![1]);
    assert_eq!(t.all_points(), vec![5, 5, 5]);
}

#[test]
fn count_tracks_only_points_inside() {
    let mut t = Octree::new(0, 0, 0, 7, 7, 7, 1);
    let mut expected: u32 = 0;
    for i in 0..40i32 {
        let x = (i * 3) % 11;
        let y = (i * 5) % 9;
        let z = (i * 7) % 8;
        t.insert(x, y, z, i as u32);
        if x <= 7 && y <= 7 && z <= 7 {
            expected += 1;
        }
        assert_eq!(t.len(), expected);
    }
}

#[test]
fn clear_leaves_only_the_root() {
    let mut t = three_points();
    t.clear();
    assert_eq!(t.len(), 0);
    assert_eq!(t.all_node_aabbs(), vec![0, 0, 0, 10, 10, 10]);
    assert!(t.all_points().is_empty());
    assert!(t.query_aabb(0, 0, 0, 10, 10, 10).is_empty());
    t.insert(4, 4, 4, 9);
    assert_eq!(t.len(), 1);
    assert_eq!(t.query_aabb(0, 0, 0, 10, 10, 10), vec![9]);
}

#[test]
fn zero_radius_sphere_finds_exact_matches() {
    let mut t = Octree::new(0, 0, 0, 10, 10, 10, 1);
    t.insert(3, 4, 5, 1);
    t.insert(3, 4, 6, 2);
    t.insert(3, 4, 5, 3);
    t.insert(4, 4, 5, 4);
    assert_eq!(sorted(t.query_sphere(3, 4, 5, 0)), vec![1, 3]);
    assert!(t.query_sphere(0, 0, 0, 0).is_empty());
}

#[test]
fn sphere_uses_squared_distance() {
    let mut t = Octree::new(-10, -10, -10, 10, 10, 10, 2);
    t.insert(3, 4, 0, 1);
    t.insert(3, 4, 1, 2);
    t.insert(-5, 0, 0, 3);
    t.insert(0, 0, 6, 4);
    assert_eq!(sorted(t.query_sphere(0, 0, 0, 5)), vec![1, 3]);
    assert_eq!(sorted(t.query_sphere(0, 0, 0, -5)), vec![1, 3]);
    assert_eq!(sorted(t.query_sphere(0, 0, 0, 6)), vec![1, 2, 3, 4]);
}

#[test]
fn sphere_far_outside_the_universe_still_reaches_it() {
    let mut t = Octree::new(0, 0, 0, 10, 10, 10, 1);
    t.insert(10, 10, 10, 1);
    t.insert(0, 0, 0, 2);
    assert_eq!(t.query_sphere(13, 14, 10, 5), vec![1]);
    assert!(t.query_sphere(13, 14, 10, 4).is_empty());
}

#[test]
fn zero_capacity_counts_as_one() {
    let mut t = Octree::new(0, 0, 0, 10, 10, 10, 0);
    t.insert(1, 1, 1, 1);
    assert_eq!(t.all_node_aabbs().len(), 6);
    t.insert(9, 9, 9, 2);
    assert_eq!(t.all_node_aabbs().len(), 9 * 6);
    assert_eq!(t.len(), 2);
}

#[test]
fn points_on_a_split_plane_go_to_the_lower_octant() {
    let mut t = Octree::new(0, 0, 0, 10, 10, 10, 1);
    t.insert(10, 10, 10, 2);
    t.insert(5, 5, 5, 1);
    assert_eq!(t.all_points(), vec![5, 5, 5, 10, 10, 10]);
    assert_eq!(t.query_aabb(0, 0, 0, 10, 10, 10), vec![1, 2]);
}

#[test]
fn midpoint_rounds_down_for_negative_bounds() {
    let mut t = Octree::new(-5, -5, -5, 4, 4, 4, 1);
    t.insert(-5, -5, -5, 1);
    t.insert(4, 4, 4, 2);
    let b = t.all_node_aabbs();
    assert_eq!(b.len(), 9 * 6);
    assert_eq!(&b[6..12], &[-5, -5, -5, -1, -1, -1]);
    assert_eq!(&b[48..54], &[-1, -1, -1, 4, 4, 4]);
}

#[test]
fn queries_on_an_empty_index_return_nothing() {
    let t = Octree::new(0, 0, 0, 10, 10, 10, 3);
    assert_eq!(t.len(), 0);
    assert!(t.query_aabb(0, 0, 0, 10, 10, 10).is_empty());
    assert!(t.query_sphere(5, 5, 5, 100).is_empty());
    assert!(t.all_points().is_empty());
}

#[test]
fn box_query_misses_disjoint_ranges() {
    let t = three_points();
    assert!(t.query_aabb(3, 3, 3, 8, 8, 8).is_empty());
    assert!(t.query_aabb(20, 20, 20, 30, 30, 30).is_empty());
    assert!(t.query_aabb(5, 5, 5, 0, 0, 0).is_empty());
}

#[test]
fn extreme_coordinates_do_not_overflow() {
    let (lo, hi) = (i32::MIN, i32::MAX);
    let mut t = Octree::new(lo, lo, lo, hi, hi, hi, 1);
    t.insert(lo, lo, lo, 1);
    t.insert(hi, hi, hi, 2);
    t.insert(-1, 0, -1, 3);
    assert_eq!(t.len(), 3);
    assert_eq!(t.query_sphere(hi, hi, hi, 0), vec![2]);
    assert_eq!(t.query_sphere(lo, lo, lo, hi), vec![1]);
    assert_eq!(sorted(t.query_aabb(lo, lo, lo, hi, hi, hi)), vec![1, 2, 3]);
    assert_eq!(&t.all_node_aabbs()[6..12], &[lo, lo, lo, -1, -1, -1]);
}

#[test]
fn leaf_with_room_appends_in_insertion_order() {
    let mut t = Octree::new(0, 0, 0, 10, 10, 10, 3);
    t.insert(7, 1, 2, 5);
    t.insert(1, 8, 3, 4);
    t.insert(9, 9, 9, 6);
    assert_eq!(t.all_node_aabbs(), vec![0, 0, 0, 10, 10, 10]);
    assert_eq!(t.all_points(), vec![7, 1, 2, 1, 8, 3, 9, 9, 9]);
    assert_eq!(t.query_aabb(0, 0, 0, 10, 10, 10), vec![5, 4, 6]);
}

#[test]
fn dump_grows_by_whole_splits_and_keeps_the_universe_first() {
    let mut t = Octree::new(-20, -20, -20, 20, 20, 20, 1);
    let mut prev = t.all_node_aabbs();
    for i in 0..30i32 {
        t.insert((i * 7) % 41 - 20, (i * 13) % 41 - 20, (i * 3) % 41 - 20, i as u32);
        let now = t.all_node_aabbs();
        assert!(now.len() >= prev.len());
        assert_eq!((now.len() - prev.len()) % 48, 0);
        assert_eq!(&now[0..6], &[-20, -20, -20, 20, 20, 20]);
        prev = now;
    }
}

#[test]
fn cleared_index_behaves_like_a_new_one() {
    let mut a = three_points();
    a.clear();
    let mut b = Octree::new(0, 0, 0, 10, 10, 10, 2);
    for t in [&mut a, &mut b] {
        t.insert(5, 5, 5, 1);
        t.insert(6, 6, 6, 2);
        t.insert(0, 10, 0, 3);
    }
    assert_eq!(a.all_node_aabbs(), b.all_node_aabbs());
    assert_eq!(a.all_points(), b.all_points());
    assert_eq!(a.query_aabb(0, 0, 0, 10, 10, 10), b.query_aabb(0, 0, 0, 10, 10, 10));
}
