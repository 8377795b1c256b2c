//! Extraction of the dominant plane of a 3D point cloud, on exact integer
//! coordinates.
//!
//! Positions are signed integers in a unit of the caller's choice
//! (for instance tenths of a millimetre). On such coordinates every
//! geometric decision the library takes (which cell a point falls in, whether
//! three points are collinear, whether a point lies closer to a plane than a
//! threshold) is exact, and is stated as such in the contracts.

pub mod arith;
pub mod error;
pub mod plane3d;
pub mod point3d;
pub mod point_cloud;
pub mod project;
pub mod ransac;
pub mod spatial_index;
pub mod vector3d;
pub mod voxel;
