//! MagicaVoxel output: the options of the `.vox` writer, voxel chunks,
//! and the assembly of the written scene.
use vstd::prelude::*;

pub use crate::ColorMode;

pub mod serialization;
pub mod voxelization;

verus! {

/// Options of the `.vox` writer.
#[derive(Debug, Clone, Copy, PartialEq, Eq)]
pub struct DotVoxConfig {
    /// How the palette is chosen.
    pub color: ColorMode,
    /// Keep every voxel, also where two triangles produce a voxel at the
    /// same position (MagicaVoxel will likely show the last one).
    pub no_optimization: bool,
}

/// The MagicaVoxel output format (Z up, Y forward, X right).
pub struct DotVox;

} // verus!
