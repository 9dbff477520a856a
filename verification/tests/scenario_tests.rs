use ferrum_cloud::{KdTree, Octree, Point, PointXYZ, Position};

// Coordinates carry one decimal digit of the source data per unit: a reading
// of 0.1 becomes 1, a reading of 10.0 becomes 100.

#[test]
fn scenario_nearest_neighbor_close_to_origin() {
    let points = vec![
        PointXYZ::new(0, 0, 0),
        PointXYZ::new(10, 10, 10),
        PointXYZ::new(20, 20, 20),
    ];
    let tree = KdTree::build(&points);
    let nearest = tree.nearest_neighbor(&PointXYZ::new(1, 1, 1)).unwrap();
    assert_eq!(nearest.position(), Position { x: 0, y: 0, z: 0 });
}

#[test]
fn scenario_radius_search_two_results_both_trees() {
    let points = vec![
        PointXYZ::new(0, 0, 0),
        PointXYZ::new(1, 1, 1),
        PointXYZ::new(100, 100, 100),
    ];
    let query = PointXYZ::new(0, 0, 0);

    let kd = KdTree::build(&points);
    assert_eq!(kd.radius_search(&query, 10).len(), 2);

    let oct = Octree::build(&points);
    assert_eq!(oct.radius_search(&query, 10).len(), 2);
}

#[test]
fn scenario_empty_point_set_never_panics() {
    let empty: Vec<PointXYZ> = Vec::new();
    let query = PointXYZ::new(0, 0, 0);

    let kd = KdTree::build(&empty);
    assert!(kd.nearest_neighbor(&query).is_none());
    assert!(kd.radius_search(&query, 10).is_empty());
    assert!(kd.k_nearest(&query, 3).is_empty());

    let oct = Octree::build(&empty);
    assert!(oct.radius_search(&query, 10).is_empty());
}
