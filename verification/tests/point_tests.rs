use ferrum_cloud::{Point, PointXYZ, PointXYZRGB, PointXYZRGBNormal, Position};

#[test]
fn test_point_xyz_creation() {
    let point = PointXYZ::new(1, 2, 3);
    assert_eq!(point.position(), Position { x: 1, y: 2, z: 3 });
    assert_eq!(point.x(), 1);
    assert_eq!(point.y(), 2);
    assert_eq!(point.z(), 3);
}

#[test]
fn test_point_distance() {
    let p1 = PointXYZ::new(0, 0, 0);
    let p2 = PointXYZ::new(3, 4, 0);
    assert_eq!(p1.distance_to(&p2), 5);
    assert_eq!(p1.distance_squared_to(&p2), 25);
}

#[test]
fn test_point_xyz_rgb() {
    let point = PointXYZRGB::new(1, 2, 3, 255, 128, 64);
    assert_eq!(point.position(), Position { x: 1, y: 2, z: 3 });
    assert_eq!(point.rgb(), 0xFF8040);
}

#[test]
fn test_basic_point_creation() {
    let point = PointXYZ::new(1, 2, 3);
    assert_eq!(point.position(), Position { x: 1, y: 2, z: 3 });
}

#[test]
fn test_point_from_array_and_origin() {
    assert_eq!(PointXYZ::from_array([7, 8, 9]), PointXYZ::new(7, 8, 9));
    assert_eq!(PointXYZ::origin(), PointXYZ::new(0, 0, 0));
    assert_eq!(PointXYZ::default(), PointXYZ::origin());
}

#[test]
fn test_point_rgb_packing_roundtrip() {
    let point = PointXYZRGB::from_coords_and_rgb(1, 1, 1, 0x123456);
    assert_eq!(point.r, 0x12);
    assert_eq!(point.g, 0x34);
    assert_eq!(point.b, 0x56);
    assert_eq!(point.rgb(), 0x123456);
}

#[test]
fn test_point_with_normal() {
    let point = PointXYZRGBNormal::new(1, 2, 3, 10, 20, 30, 0, 0, 1000);
    assert_eq!(point.position(), Position { x: 1, y: 2, z: 3 });
    assert_eq!(point.normal(), [0, 0, 1000]);
    assert_eq!(point.rgb(), (10 << 16) | (20 << 8) | 30);
}

#[test]
fn test_distance_rounds_down() {
    let p1 = PointXYZ::new(0, 0, 0);
    let p2 = PointXYZ::new(1, 1, 1);
    assert_eq!(p1.distance_squared_to(&p2), 3);
    assert_eq!(p1.distance_to(&p2), 1);
}
