//! Tissue labelling of a 3D intensity scan: k-means clustering of voxel
//! intensities, and morphological clean-up of the per-voxel class labels.
pub mod depth;
pub mod filter;
pub mod grid;
pub mod intensity;
pub mod k_means;
pub mod members;
pub mod point;
pub mod slice_filter;
pub mod write_image;
