//! Format-agnostic voxelization: the configuration of the voxelizer, the
//! scene's sampling settings, and the shading decisions of the
//! voxelizer.
use crate::voxquant_core::voxelizer::VoxelizationMode;
use vstd::prelude::*;

pub mod scene;
pub mod voxelizer;

verus! {

/// Configuration required by the voxelizer.
#[derive(Debug, Clone, Copy, PartialEq, Eq)]
pub struct VoxelizationConfig {
    /// The resolution of the output model: the number of voxels along the
    /// longest side of the scene.
    pub res: u32,
    /// Which part of each triangle is turned into voxels.
    pub mode: VoxelizationMode,
}

} // verus!
