pub mod args;
pub mod chunk;
pub mod mesh;
pub mod octree;
pub mod save;
pub mod terrain;
pub mod voxel;
pub mod world;
