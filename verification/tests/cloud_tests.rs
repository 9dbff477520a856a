use ferrum_cloud::{CloudError, Point, PointCloud, PointXYZ, Position};

#[test]
fn cloud_test_point_cloud_creation() {
    let cloud = PointCloud::<PointXYZ>::new();
    assert!(cloud.is_empty());
    assert_eq!(cloud.len(), 0);
}

#[test]
fn test_point_cloud_from_points() {
    let points = vec![PointXYZ::new(0, 0, 0), PointXYZ::new(1, 1, 1)];
    let cloud = PointCloud::from_points(points);
    assert_eq!(cloud.len(), 2);
    assert!(!cloud.is_empty());
}

#[test]
fn test_point_cloud_operations() {
    let mut cloud = PointCloud::new();
    cloud.push(PointXYZ::new(1, 2, 3));
    cloud.push(PointXYZ::new(4, 5, 6));

    assert_eq!(cloud.len(), 2);
    assert_eq!(cloud.get(0).unwrap().position(), Position { x: 1, y: 2, z: 3 });
    assert_eq!(cloud.get(1).unwrap().position(), Position { x: 4, y: 5, z: 6 });
}

#[test]
fn cloud_test_bounding_box() {
    let points = vec![
        PointXYZ::new(-1, -2, -3),
        PointXYZ::new(1, 2, 3),
        PointXYZ::new(0, 0, 0),
    ];
    let cloud = PointCloud::from_points(points);

    let (min_bounds, max_bounds) = cloud.bounding_box().unwrap();
    assert_eq!(min_bounds, Position { x: -1, y: -2, z: -3 });
    assert_eq!(max_bounds, Position { x: 1, y: 2, z: 3 });
}

#[test]
fn test_centroid() {
    let points = vec![PointXYZ::new(0, 0, 0), PointXYZ::new(2, 2, 2)];
    let cloud = PointCloud::from_points(points);

    let centroid = cloud.centroid().unwrap();
    assert_eq!(centroid, Position { x: 1, y: 1, z: 1 });
}

#[test]
fn test_filter() {
    let points = vec![
        PointXYZ::new(0, 0, 0),
        PointXYZ::new(2, 2, 2),
        PointXYZ::new(4, 4, 4),
    ];
    let cloud = PointCloud::from_points(points);

    let filtered = cloud.filter(|p| p.x() > 1);
    assert_eq!(filtered.len(), 2);
}

#[test]
fn lib_test_point_cloud_creation() {
    let points = vec![PointXYZ::new(0, 0, 0), PointXYZ::new(1, 1, 1)];
    let cloud = PointCloud::from_points(points);
    assert_eq!(cloud.len(), 2);
}

#[test]
fn test_filter_keep_all_preserves_points() {
    let points = vec![
        PointXYZ::new(3, 1, 4),
        PointXYZ::new(1, 5, 9),
        PointXYZ::new(2, 6, 5),
    ];
    let cloud = PointCloud::from_points(points.clone());
    let filtered = cloud.filter(|_| true);
    assert_eq!(filtered.len(), points.len());
    let mut kept: Vec<PointXYZ> = filtered.points().to_vec();
    let mut expected = points;
    kept.sort_by_key(|p| (p.x, p.y, p.z));
    expected.sort_by_key(|p| (p.x, p.y, p.z));
    assert_eq!(kept, expected);
}

#[test]
fn test_empty_cloud_reductions() {
    let cloud = PointCloud::<PointXYZ>::new();
    assert!(cloud.bounding_box().is_none());
    assert!(cloud.centroid().is_none());
}

#[test]
fn test_remove_updates_width_and_rejects_out_of_bounds() {
    let mut cloud = PointCloud::from_points(vec![
        PointXYZ::new(1, 1, 1),
        PointXYZ::new(2, 2, 2),
    ]);
    let removed = cloud.remove(0).unwrap();
    assert_eq!(removed, PointXYZ::new(1, 1, 1));
    assert_eq!(cloud.len(), 1);
    assert_eq!(cloud.metadata().width, 1);
    match cloud.remove(5) {
        Err(CloudError::InvalidParameter(_)) => {}
        _ => panic!("expected an invalid parameter error"),
    }
}

#[test]
fn test_extend_and_clear() {
    let mut cloud = PointCloud::from_points(vec![PointXYZ::new(1, 1, 1)]);
    cloud.extend(vec![PointXYZ::new(2, 2, 2), PointXYZ::new(3, 3, 3)]);
    assert_eq!(cloud.len(), 3);
    assert_eq!(cloud.metadata().width, 3);
    cloud.clear();
    assert!(cloud.is_empty());
    assert_eq!(cloud.metadata().width, 0);
}

#[test]
fn test_crop_inclusive_bounds() {
    let cloud = PointCloud::from_points(vec![
        PointXYZ::new(0, 0, 0),
        PointXYZ::new(5, 5, 5),
        PointXYZ::new(10, 10, 10),
    ]);
    let cropped = cloud.crop(Position { x: 0, y: 0, z: 0 }, Position { x: 5, y: 5, z: 5 });
    assert_eq!(cropped.len(), 2);
}

#[test]
fn test_map_changes_points_one_to_one() {
    let cloud = PointCloud::from_points(vec![PointXYZ::new(1, 2, 3)]);
    let mapped: PointCloud<PointXYZ> = cloud.map(|p| PointXYZ::new(p.x * 2, p.y * 2, p.z * 2));
    assert_eq!(mapped.len(), 1);
    assert_eq!(mapped.get(0).unwrap().position(), Position { x: 2, y: 4, z: 6 });
}
