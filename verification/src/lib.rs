//! Point cloud processing with verified spatial indexing.
//!
//! The library owns a point-cloud container, a point capability trait, and two
//! spatial indices (a k-d tree and an octree) whose queries are proved to match
//! an exhaustive linear scan. Coordinates are fixed-point integers; conversion
//! from floating-point sensor data happens outside the library.

pub mod cloud;
pub mod error;
pub mod filter;
pub mod kdtree;
pub mod metadata;
pub mod octree;
pub mod point;
pub mod segmentation;
pub mod timer;
pub mod view;

pub use cloud::PointCloud;
pub use error::{CloudError, CloudResult};
pub use filter::{pass_through_filter, remove_radius_outliers, voxel_downsample, Axis, FilterExt};
pub use kdtree::KdTree;
pub use metadata::Metadata;
pub use octree::{BoundingBox, Octree};
pub use point::{Point, PointXYZ, PointXYZRGB, PointXYZRGBNormal, Position};
pub use segmentation::{euclidean_clustering, ransac_plane_segmentation, sample_three_points, Plane,
    SegmentationExt};
pub use timer::Timer;
pub use view::PointCloudView;
