//! Texture sampling settings of the scene.
pub use crate::voxquant_core::scene::WrapMode;
