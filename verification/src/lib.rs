//! Web Mercator spatial-id tiling: 2D tiles and 3D voxel tiles with an
//! octree hierarchy, a hierarchical path-hash encoding, a positional id
//! string, and bounding-volume cover enumeration over tile index ranges.

pub mod text;
pub mod xyz;
pub mod zfxy;
