use ferrum_cloud::{KdTree, Point, PointXYZ, Position};

#[test]
fn test_kdtree_build() {
    let points = vec![
        PointXYZ::new(0, 0, 0),
        PointXYZ::new(1, 1, 1),
        PointXYZ::new(2, 2, 2),
    ];

    let tree = KdTree::build(&points);
    assert!(tree.nearest_neighbor(&PointXYZ::new(0, 0, 0)).is_some());
}

#[test]
fn test_nearest_neighbor() {
    let points = vec![
        PointXYZ::new(0, 0, 0),
        PointXYZ::new(10, 10, 10),
        PointXYZ::new(20, 20, 20),
    ];

    let tree = KdTree::build(&points);
    let query = PointXYZ::new(1, 1, 1);

    let result = tree.nearest_neighbor(&query);
    assert!(result.is_some());

    let nearest = result.unwrap();
    assert_eq!(nearest.position(), Position { x: 0, y: 0, z: 0 });
}

#[test]
fn test_radius_search() {
    let points = vec![
        PointXYZ::new(0, 0, 0),
        PointXYZ::new(1, 1, 1),
        PointXYZ::new(10, 10, 10),
    ];

    let tree = KdTree::build(&points);
    let query = PointXYZ::new(0, 0, 0);

    let results = tree.radius_search(&query, 2);
    assert_eq!(results.len(), 2);
}

#[test]
fn test_radius_search_reports_squared_distances() {
    let points = vec![PointXYZ::new(0, 0, 0), PointXYZ::new(1, 1, 1)];
    let tree = KdTree::build(&points);
    let results = tree.radius_search(&PointXYZ::new(0, 0, 0), 2);
    let mut dists: Vec<u128> = results.iter().map(|pr| pr.1).collect();
    dists.sort();
    assert_eq!(dists, vec![0, 3]);
}

#[test]
fn test_k_nearest_sorted_and_bounded() {
    let points = vec![
        PointXYZ::new(5, 0, 0),
        PointXYZ::new(1, 0, 0),
        PointXYZ::new(3, 0, 0),
        PointXYZ::new(2, 0, 0),
    ];
    let tree = KdTree::build(&points);
    let query = PointXYZ::new(0, 0, 0);

    let two = tree.k_nearest(&query, 2);
    assert_eq!(two.len(), 2);
    assert_eq!(two[0].0.position(), Position { x: 1, y: 0, z: 0 });
    assert_eq!(two[1].0.position(), Position { x: 2, y: 0, z: 0 });
    assert_eq!(two[0].1, 1);
    assert_eq!(two[1].1, 4);

    let all = tree.k_nearest(&query, 10);
    assert_eq!(all.len(), 4);
    for w in all.windows(2) {
        assert!(w[0].1 <= w[1].1);
    }

    let none = tree.k_nearest(&query, 0);
    assert!(none.is_empty());
}

#[test]
fn test_kdtree_matches_linear_scan() {
    let points = vec![
        PointXYZ::new(4, -2, 7),
        PointXYZ::new(-3, 5, 1),
        PointXYZ::new(0, 0, 0),
        PointXYZ::new(9, 9, -9),
        PointXYZ::new(2, 2, 2),
        PointXYZ::new(-5, -5, -5),
        PointXYZ::new(6, 1, -2),
    ];
    let tree = KdTree::build(&points);
    let query = PointXYZ::new(1, 0, 1);

    let nearest = tree.nearest_neighbor(&query).unwrap();
    let best_scan = points
        .iter()
        .map(|p| query.distance_squared_to(p))
        .min()
        .unwrap();
    assert_eq!(query.distance_squared_to(&nearest), best_scan);

    let radius: u64 = 6;
    let mut from_tree: Vec<PointXYZ> =
        tree.radius_search(&query, radius).into_iter().map(|pr| pr.0).collect();
    let mut from_scan: Vec<PointXYZ> = points
        .iter()
        .filter(|p| query.distance_squared_to(p) <= (radius as u128) * (radius as u128))
        .cloned()
        .collect();
    from_tree.sort_by_key(|p| (p.x, p.y, p.z));
    from_scan.sort_by_key(|p| (p.x, p.y, p.z));
    assert_eq!(from_tree, from_scan);
}

#[test]
fn test_empty_kdtree_queries() {
    let tree = KdTree::<PointXYZ>::build(&[]);
    let query = PointXYZ::new(1, 2, 3);
    assert!(tree.nearest_neighbor(&query).is_none());
    assert!(tree.radius_search(&query, 100).is_empty());
    assert!(tree.k_nearest(&query, 5).is_empty());

    let fresh = KdTree::<PointXYZ>::new();
    assert!(fresh.nearest_neighbor(&query).is_none());
}

#[test]
fn test_kdtree_duplicate_points() {
    let points = vec![
        PointXYZ::new(1, 1, 1),
        PointXYZ::new(1, 1, 1),
        PointXYZ::new(2, 2, 2),
    ];
    let tree = KdTree::build(&points);
    let results = tree.radius_search(&PointXYZ::new(1, 1, 1), 0);
    assert_eq!(results.len(), 2);
}
