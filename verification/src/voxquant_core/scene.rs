//! Texture sampling settings of a scene.
use vstd::prelude::*;

verus! {

/// How texture coordinates outside `[0, 1]` are brought back into it.
#[derive(Debug, Clone, Copy, PartialEq, Eq)]
pub enum WrapMode {
    /// Clamps every texture coordinate into the `[0, 1]` range.
    ClampToEdge,
    /// Repeats the texture outside `[0, 1]`, mirrored every other time.
    MirroredRepeat,
    /// Repeats the texture outside `[0, 1]`.
    Repeat,
}

} // verus!
