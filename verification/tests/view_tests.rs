use ferrum_cloud::{Point, PointCloud, PointCloudView, PointXYZ, Position};

#[test]
fn test_point_cloud_view_creation() {
    let points = vec![PointXYZ::new(0, 0, 0), PointXYZ::new(1, 1, 1)];
    let cloud = PointCloud::from_points(points);
    let view = PointCloudView::new(cloud.points(), cloud.metadata());

    assert_eq!(view.len(), 2);
    assert!(!view.is_empty());
}

#[test]
fn test_view_slice() {
    let points = vec![
        PointXYZ::new(0, 0, 0),
        PointXYZ::new(1, 1, 1),
        PointXYZ::new(2, 2, 2),
    ];
    let cloud = PointCloud::from_points(points);
    let view = PointCloudView::new(cloud.points(), cloud.metadata());

    let subview = view.slice(1..3).unwrap();
    assert_eq!(subview.len(), 2);
    assert_eq!(subview.get(0).unwrap().position(), Position { x: 1, y: 1, z: 1 });
}

#[test]
fn test_view_operations() {
    let points = vec![
        PointXYZ::new(0, 0, 0),
        PointXYZ::new(2, 2, 2),
        PointXYZ::new(4, 4, 4),
    ];
    let cloud = PointCloud::from_points(points);
    let view = PointCloudView::new(cloud.points(), cloud.metadata());

    let filtered = view.filter_collect(|p| p.x() > 1);
    assert_eq!(filtered.len(), 2);

    let count = view.count_where(|p| p.x() >= 2);
    assert_eq!(count, 2);
}

#[test]
fn test_view_reductions() {
    let points = vec![
        PointXYZ::new(-1, -2, -3),
        PointXYZ::new(1, 2, 3),
        PointXYZ::new(0, 0, 0),
    ];
    let cloud = PointCloud::from_points(points);
    let view = PointCloudView::new(cloud.points(), cloud.metadata());

    let (lo, hi) = view.bounding_box().unwrap();
    assert_eq!(lo, Position { x: -1, y: -2, z: -3 });
    assert_eq!(hi, Position { x: 1, y: 2, z: 3 });

    let centroid = view.centroid().unwrap();
    assert_eq!(centroid, Position { x: 0, y: 0, z: 0 });

    let doubled = view.map_collect(|p| PointXYZ::new(p.x() * 2, p.y() * 2, p.z() * 2));
    assert_eq!(doubled.len(), 3);
    assert_eq!(doubled[1], PointXYZ::new(2, 4, 6));
}

#[test]
fn test_view_find_closest() {
    let points = vec![
        PointXYZ::new(10, 0, 0),
        PointXYZ::new(1, 0, 0),
        PointXYZ::new(5, 0, 0),
    ];
    let cloud = PointCloud::from_points(points);
    let view = PointCloudView::new(cloud.points(), cloud.metadata());

    let (index, point, dist_sq) = view.find_closest(&PointXYZ::new(0, 0, 0)).unwrap();
    assert_eq!(index, 1);
    assert_eq!(point.position(), Position { x: 1, y: 0, z: 0 });
    assert_eq!(dist_sq, 1);

    let empty = PointCloud::<PointXYZ>::new();
    let empty_view = PointCloudView::new(empty.points(), empty.metadata());
    assert!(empty_view.find_closest(&PointXYZ::new(0, 0, 0)).is_none());
}
