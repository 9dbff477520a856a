use ferrum_cloud::{euclidean_clustering, ransac_plane_segmentation, sample_three_points,
    CloudError, Point, PointCloud, PointXYZ, SegmentationExt};

#[test]
fn test_euclidean_clustering() {
    let points = vec![
        PointXYZ::new(0, 0, 0),
        PointXYZ::new(1, 1, 1),
        PointXYZ::new(100, 100, 100),
    ];
    let cloud = PointCloud::from_points(points);

    let clusters = cloud.euclidean_cluster(10, 1, 10);
    assert!(!clusters.is_empty());
}

#[test]
fn test_ransac_plane() {
    let points = vec![
        PointXYZ::new(0, 0, 0),
        PointXYZ::new(10, 0, 0),
        PointXYZ::new(0, 10, 0),
        PointXYZ::new(10, 10, 0),
    ];
    let cloud = PointCloud::from_points(points);

    let result = cloud.ransac_plane(1, 100);
    assert!(result.is_ok());

    let (inliers, plane) = result.unwrap();
    assert!(!inliers.is_empty());
    assert_eq!((plane.a, plane.b), (0, 0));
}

#[test]
fn test_clustering_separates_far_groups() {
    let points = vec![
        PointXYZ::new(0, 0, 0),
        PointXYZ::new(1, 0, 0),
        PointXYZ::new(100, 0, 0),
        PointXYZ::new(101, 0, 0),
    ];
    let cloud = PointCloud::from_points(points);
    let clusters = euclidean_clustering(&cloud, 2, 2, 10);
    assert_eq!(clusters.len(), 2);
    for cluster in &clusters {
        assert_eq!(cluster.len(), 2);
    }
}

#[test]
fn test_clustering_size_bounds_drop_clusters() {
    let points = vec![PointXYZ::new(0, 0, 0), PointXYZ::new(100, 0, 0)];
    let cloud = PointCloud::from_points(points);
    let clusters = euclidean_clustering(&cloud, 1, 2, 10);
    assert!(clusters.is_empty());
}

#[test]
fn test_ransac_rejects_small_clouds() {
    let cloud = PointCloud::from_points(vec![PointXYZ::new(0, 0, 0), PointXYZ::new(1, 0, 0)]);
    match ransac_plane_segmentation(&cloud, 1, 10) {
        Err(CloudError::AlgorithmError(_)) => {}
        _ => panic!("expected an algorithm error"),
    }
}

#[test]
fn test_ransac_collinear_points_fall_back() {
    let points = vec![
        PointXYZ::new(0, 0, 0),
        PointXYZ::new(1, 0, 0),
        PointXYZ::new(2, 0, 0),
    ];
    let cloud = PointCloud::from_points(points);
    let (inliers, plane) = ransac_plane_segmentation(&cloud, 1, 10).unwrap();
    assert!(inliers.is_empty());
    assert_eq!((plane.a, plane.b, plane.c, plane.d), (0, 0, 1, 0));
}

#[test]
fn test_ransac_inliers_exclude_far_points() {
    let points = vec![
        PointXYZ::new(0, 0, 0),
        PointXYZ::new(10, 0, 0),
        PointXYZ::new(0, 10, 0),
        PointXYZ::new(5, 5, 50),
    ];
    let cloud = PointCloud::from_points(points);
    let (inliers, _plane) = ransac_plane_segmentation(&cloud, 1, 100).unwrap();
    assert_eq!(inliers, vec![0, 1, 2]);
}

#[test]
fn test_sample_three_points_rule() {
    assert_eq!(sample_three_points(9), [0, 3, 6]);
    assert_eq!(sample_three_points(4), [0, 1, 2]);
}

#[test]
fn test_clustering_covers_every_point_when_bounds_allow() {
    let points = vec![
        PointXYZ::new(0, 0, 0),
        PointXYZ::new(1, 0, 0),
        PointXYZ::new(100, 0, 0),
        PointXYZ::new(200, 0, 0),
    ];
    let n = points.len();
    let cloud = PointCloud::from_points(points);
    let clusters = euclidean_clustering(&cloud, 2, 1, 10);
    let mut seen = vec![false; n];
    for cluster in &clusters {
        for &v in cluster {
            assert!(!seen[v]);
            seen[v] = true;
        }
    }
    assert!(seen.iter().all(|&b| b));
}

#[test]
fn test_clustering_dropped_points_are_far_from_kept_ones() {
    let points = vec![
        PointXYZ::new(0, 0, 0),
        PointXYZ::new(1, 0, 0),
        PointXYZ::new(100, 0, 0),
    ];
    let cloud = PointCloud::from_points(points);
    // the singleton far group is dropped by the minimum size
    let clusters = euclidean_clustering(&cloud, 2, 2, 10);
    assert_eq!(clusters.len(), 1);
    for &kept in &clusters[0] {
        let d = cloud.get(2).unwrap().distance_squared_to(cloud.get(kept).unwrap());
        assert!(d > 4);
    }
}
