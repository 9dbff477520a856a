use ferrum_cloud::{Metadata, Position};

#[test]
fn test_metadata_creation() {
    let meta = Metadata::new_unorganized(1000);
    assert_eq!(meta.width, 1000);
    assert_eq!(meta.height, 1);
    assert!(!meta.is_organized);
    assert_eq!(meta.point_count(), 1000);
}

#[test]
fn test_organized_metadata() {
    let meta = Metadata::new_organized(640, 480);
    assert_eq!(meta.width, 640);
    assert_eq!(meta.height, 480);
    assert!(meta.is_organized);
    assert_eq!(meta.point_count(), 640 * 480);
}

#[test]
fn test_custom_fields() {
    let meta = Metadata::new_unorganized(100)
        .with_custom_field("source".to_string(), "kinect".to_string())
        .with_custom_field("timestamp".to_string(), "2023-01-01".to_string());

    assert_eq!(meta.get_custom_field("source"), Some(&"kinect".to_string()));
    assert_eq!(
        meta.get_custom_field("timestamp"),
        Some(&"2023-01-01".to_string())
    );
    assert_eq!(meta.get_custom_field("nonexistent"), None);
}

#[test]
fn test_dense_flag() {
    let mut meta = Metadata::new_unorganized(5);
    assert!(meta.is_dense());
    meta.set_dense(false);
    assert!(!meta.is_dense());
    meta.set_dense(true);
    assert!(meta.is_dense());
}

#[test]
fn test_sensor_pose_builders() {
    let meta = Metadata::new_unorganized(0)
        .with_sensor_origin(Position { x: 1, y: 2, z: 3 })
        .with_sensor_orientation([1, 0, 0, 0]);
    assert_eq!(meta.sensor_origin, Position { x: 1, y: 2, z: 3 });
    assert_eq!(meta.sensor_orientation, [1, 0, 0, 0]);
}

#[test]
fn test_custom_field_shadowing() {
    let meta = Metadata::new_unorganized(0)
        .with_custom_field("k".to_string(), "old".to_string())
        .with_custom_field("k".to_string(), "new".to_string());
    assert_eq!(meta.get_custom_field("k"), Some(&"new".to_string()));
}
