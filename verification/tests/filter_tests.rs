use ferrum_cloud::{pass_through_filter, voxel_downsample, Axis, FilterExt, Point, PointCloud,
    PointXYZ};

#[test]
fn test_voxel_downsample() {
    let points = vec![
        PointXYZ::new(0, 0, 0),
        PointXYZ::new(1, 1, 1),
        PointXYZ::new(100, 100, 100),
    ];
    let cloud = PointCloud::from_points(points);

    let downsampled = cloud.voxel_downsample(10);
    assert!(downsampled.len() <= 2);
}

#[test]
fn test_pass_through_filter() {
    let points = vec![
        PointXYZ::new(0, 0, 0),
        PointXYZ::new(2, 2, 2),
        PointXYZ::new(4, 4, 4),
    ];
    let cloud = PointCloud::from_points(points);

    let filtered = cloud.pass_through(Axis::X, 1, 3);
    assert_eq!(filtered.len(), 1);
}

#[test]
fn test_radius_outlier_removal() {
    let points = vec![
        PointXYZ::new(0, 0, 0),
        PointXYZ::new(1, 1, 1),
        PointXYZ::new(100, 100, 100),
    ];
    let cloud = PointCloud::from_points(points);

    let filtered = cloud.remove_radius_outliers(10, 1);
    assert_eq!(filtered.len(), 2);
}

#[test]
fn test_voxel_downsample_nonpositive_size_is_identity() {
    let points = vec![PointXYZ::new(1, 1, 1), PointXYZ::new(1, 1, 1)];
    let cloud = PointCloud::from_points(points.clone());
    let unchanged = voxel_downsample(cloud, 0);
    assert_eq!(unchanged.len(), 2);
    assert_eq!(unchanged.points(), points.as_slice());
}

#[test]
fn test_voxel_downsample_keeps_first_per_voxel() {
    let points = vec![
        PointXYZ::new(1, 1, 1),
        PointXYZ::new(2, 2, 2),
        PointXYZ::new(15, 1, 1),
    ];
    let cloud = PointCloud::from_points(points);
    let downsampled = voxel_downsample(cloud, 10);
    assert_eq!(downsampled.len(), 2);
    assert_eq!(downsampled.get(0).unwrap().position().x, 1);
    assert_eq!(downsampled.get(1).unwrap().position().x, 15);
}

#[test]
fn test_voxel_downsample_negative_coordinates() {
    let points = vec![PointXYZ::new(-1, -1, -1), PointXYZ::new(-9, -9, -9)];
    let cloud = PointCloud::from_points(points);
    // both lie in the voxel with index -1 on every axis
    let downsampled = voxel_downsample(cloud, 10);
    assert_eq!(downsampled.len(), 1);
}

#[test]
fn test_pass_through_other_axes() {
    let points = vec![PointXYZ::new(0, 5, 0), PointXYZ::new(0, 20, 9)];
    let by_y = pass_through_filter(PointCloud::from_points(points.clone()), Axis::Y, 0, 10);
    assert_eq!(by_y.len(), 1);
    let by_z = pass_through_filter(PointCloud::from_points(points), Axis::Z, 5, 10);
    assert_eq!(by_z.len(), 1);
}

#[test]
fn test_radius_outliers_excludes_duplicates_as_neighbors() {
    let points = vec![PointXYZ::new(0, 0, 0), PointXYZ::new(0, 0, 0)];
    let cloud = PointCloud::from_points(points);
    // exact duplicates sit at distance zero, which does not count as a neighbor
    let filtered = cloud.remove_radius_outliers(10, 1);
    assert_eq!(filtered.len(), 0);
}
