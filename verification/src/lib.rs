//! A sparse voxel world representation: a chunked voxel map built from
//! polygonal meshes or voxel scenes, compiled into a 64-ary sparse occupancy
//! tree, and serialized losslessly for storage.

pub mod codec;
pub mod map;
pub mod math;
pub mod reload;
pub mod scene;
pub mod tree;

pub use crate::map::{Brick, VoxelMap};
pub use crate::math::Vec3i;
