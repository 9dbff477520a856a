use ferrum_cloud::{BoundingBox, Octree, Point, PointXYZ, Position};

#[test]
fn octree_test_bounding_box() {
    let bbox = BoundingBox::new(Position { x: 0, y: 0, z: 0 }, Position { x: 2, y: 2, z: 2 });
    assert!(bbox.contains(Position { x: 1, y: 1, z: 1 }));
    assert!(!bbox.contains(Position { x: 3, y: 1, z: 1 }));

    let center = bbox.center();
    assert_eq!(center, Position { x: 1, y: 1, z: 1 });
}

#[test]
fn test_octree_build() {
    let points = vec![
        PointXYZ::new(0, 0, 0),
        PointXYZ::new(1, 1, 1),
        PointXYZ::new(2, 2, 2),
    ];

    let octree = Octree::build(&points);
    assert_eq!(octree.radius_search(&PointXYZ::new(0, 0, 0), 1000).len(), 3);
}

#[test]
fn test_octree_radius_search() {
    let points = vec![
        PointXYZ::new(0, 0, 0),
        PointXYZ::new(1, 1, 1),
        PointXYZ::new(100, 100, 100),
    ];

    let octree = Octree::build(&points);
    let query = PointXYZ::new(0, 0, 0);

    let results = octree.radius_search(&query, 10);
    assert_eq!(results.len(), 2);
}

#[test]
fn test_octree_subdivides_and_keeps_points() {
    let mut points = Vec::new();
    for x in 0..30 {
        points.push(PointXYZ::new(x, x % 7, x % 3));
    }
    let octree = Octree::build(&points);
    let found = octree.radius_search(&PointXYZ::new(0, 0, 0), 10_000);
    assert_eq!(found.len(), 30);
}

#[test]
fn test_octree_matches_linear_scan() {
    let points = vec![
        PointXYZ::new(4, -2, 7),
        PointXYZ::new(-3, 5, 1),
        PointXYZ::new(0, 0, 0),
        PointXYZ::new(9, 9, -9),
        PointXYZ::new(2, 2, 2),
        PointXYZ::new(-5, -5, -5),
        PointXYZ::new(6, 1, -2),
    ];
    let octree = Octree::build(&points);
    let query = PointXYZ::new(1, 0, 1);
    let radius: u64 = 6;

    let mut from_tree = octree.radius_search(&query, radius);
    let mut from_scan: Vec<PointXYZ> = points
        .iter()
        .filter(|p| query.distance_squared_to(p) <= (radius as u128) * (radius as u128))
        .cloned()
        .collect();
    from_tree.sort_by_key(|p| (p.x, p.y, p.z));
    from_scan.sort_by_key(|p| (p.x, p.y, p.z));
    assert_eq!(from_tree, from_scan);
}

#[test]
fn test_empty_octree_queries() {
    let octree = Octree::<PointXYZ>::build(&[]);
    assert!(octree.radius_search(&PointXYZ::new(0, 0, 0), 100).is_empty());

    let fresh = Octree::<PointXYZ>::new(
        BoundingBox::new(Position { x: 0, y: 0, z: 0 }, Position { x: 1, y: 1, z: 1 }),
        8,
        10,
    );
    assert!(fresh.radius_search(&PointXYZ::new(0, 0, 0), 100).is_empty());
}

#[test]
fn test_octree_insert_within_bounds() {
    let mut octree = Octree::new(
        BoundingBox::new(Position { x: -10, y: -10, z: -10 }, Position { x: 10, y: 10, z: 10 }),
        8,
        2,
    );
    octree.insert(PointXYZ::new(1, 1, 1));
    octree.insert(PointXYZ::new(-1, -1, -1));
    octree.insert(PointXYZ::new(2, 2, 2));
    octree.insert(PointXYZ::new(3, 3, 3));
    let all = octree.radius_search(&PointXYZ::new(0, 0, 0), 100);
    assert_eq!(all.len(), 4);
}
