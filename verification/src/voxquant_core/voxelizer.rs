//! Voxelization modes, the sink for generated voxels, and the colour of
//! a sampled point of a triangle.
use crate::math::{
    lemma_mul_channel_rounds_down, lemma_multiply_colors_white, multiply_colors, spec_mul_channel,
    spec_multiply_colors,
};
use vstd::prelude::*;

verus! {

/// Determines the topological style of the generated voxels.
#[derive(Debug, Clone, Copy, PartialEq, Eq)]
pub enum VoxelizationMode {
    /// Voxelizes the whole triangle.
    Triangles,
    /// Voxelizes the whole triangle so that neighbouring voxels share
    /// faces, which prevents leaks through the surface.
    FatTriangles,
    /// Voxelizes only the edges of a triangle.
    Wireframe,
    /// Voxelizes only the three vertices of a triangle.
    Points,
}

impl VoxelizationMode {
    /// The name of the mode on the command line.
    pub open spec fn spec_name(self) -> Seq<char> {
        match self {
            VoxelizationMode::Triangles => "triangles"@,
            VoxelizationMode::FatTriangles => "fat-triangles"@,
            VoxelizationMode::Wireframe => "wireframe"@,
            VoxelizationMode::Points => "points"@,
        }
    }

    /// The name of the mode on the command line.
    pub fn to_string(&self) -> (r: String)
        ensures
            r@ == self.spec_name(),
    {
        match self {
            VoxelizationMode::Triangles => "triangles".to_owned(),
            VoxelizationMode::FatTriangles => "fat-triangles".to_owned(),
            VoxelizationMode::Wireframe => "wireframe".to_owned(),
            VoxelizationMode::Points => "points".to_owned(),
        }
    }
}

/// A sink for generated voxel data.
///
/// `add_voxel` receives the global position of a voxel (the minimum
/// corner of the scene's bounding box is at the origin), its colour and
/// whether it comes from an emissive material. It is not called for
/// voxels that the alpha threshold discards.
pub trait VoxelStore {
    fn add_voxel(&mut self, pos: [i32; 3], color: [u8; 4], is_emissive: bool);
}

/// The colour of a sampled point of a triangle: the texel (if the
/// material is textured) tinted by the material's base colour, tinted by
/// the interpolated vertex colour; `None` where its alpha falls below the
/// material's alpha threshold.
pub open spec fn spec_sample_color(
    texel: Option<[u8; 4]>,
    base_color: [u8; 4],
    vertex_color: [u8; 4],
    alpha_threshold: Option<u8>,
) -> Option<[u8; 4]> {
    let base = match texel {
        Some(t) => spec_multiply_colors(t, base_color),
        None => base_color,
    };
    let color = spec_multiply_colors(base, vertex_color);
    match alpha_threshold {
        Some(threshold) => if color[3] < threshold {
            None
        } else {
            Some(color)
        },
        None => Some(color),
    }
}

/// Shades a sampled point of a triangle: tints the texel (if any) by the
/// base colour and the result by the vertex colour, and discards it when
/// its alpha is below the alpha threshold.
pub fn sample_color(
    texel: Option<[u8; 4]>,
    base_color: [u8; 4],
    vertex_color: [u8; 4],
    alpha_threshold: Option<u8>,
) -> (r: Option<[u8; 4]>)
    ensures
        r == spec_sample_color(texel, base_color, vertex_color, alpha_threshold),
{
    let base = match texel {
        Some(t) => multiply_colors(t, base_color),
        None => base_color,
    };
    let color = multiply_colors(base, vertex_color);
    match alpha_threshold {
        Some(threshold) => if color[3] < threshold {
            None
        } else {
            Some(color)
        },
        None => Some(color),
    }
}

/// Channel `k` of a shaded point: the texel channel times the base colour
/// channel over 255, rounded down, times the vertex colour channel over
/// 255, rounded down; without a texel, the base colour channel times the
/// vertex colour channel over 255, rounded down.
pub open spec fn shaded_channel(
    texel: Option<[u8; 4]>,
    base_color: [u8; 4],
    vertex_color: [u8; 4],
    k: int,
) -> int {
    match texel {
        Some(t) => ((t[k] as int) * (base_color[k] as int) / 255) * (vertex_color[k] as int) / 255,
        None => (base_color[k] as int) * (vertex_color[k] as int) / 255,
    }
}

/// Shading tints by every factor, textured or not: each channel of a
/// sampled colour is `shaded_channel` (the vertex colour always takes
/// part), and the point is dropped exactly when there is an alpha
/// threshold and the shaded alpha is below it.
pub proof fn lemma_sample_color_tints(
    texel: Option<[u8; 4]>,
    base_color: [u8; 4],
    vertex_color: [u8; 4],
    alpha_threshold: Option<u8>,
)
    ensures
        spec_sample_color(texel, base_color, vertex_color, alpha_threshold) is None <==> (
        alpha_threshold matches Some(th) && shaded_channel(texel, base_color, vertex_color, 3) < th),
        spec_sample_color(texel, base_color, vertex_color, alpha_threshold) matches Some(c) ==> forall|
            k: int,
        | 0 <= k < 4 ==> #[trigger] c[k] as int == shaded_channel(texel, base_color, vertex_color, k),
{
    let base = match texel {
        Some(t) => spec_multiply_colors(t, base_color),
        None => base_color,
    };
    let color = spec_multiply_colors(base, vertex_color);
    assert forall|k: int| 0 <= k < 4 implies #[trigger] color[k] as int == shaded_channel(
        texel,
        base_color,
        vertex_color,
        k,
    ) by {
        lemma_mul_channel_rounds_down(base[k], vertex_color[k]);
        assert(color[k] as int == spec_mul_channel(base[k], vertex_color[k]));
        if let Some(t) = texel {
            lemma_mul_channel_rounds_down(t[k], base_color[k]);
            assert(base[k] as int == spec_mul_channel(t[k], base_color[k]));
        }
    }
    assert(color[3] as int == shaded_channel(texel, base_color, vertex_color, 3));
}

/// A white texel of a white material takes exactly the vertex colour:
/// without an alpha threshold the sampled colour is the vertex colour.
pub proof fn lemma_white_texture_takes_vertex_color(vertex_color: [u8; 4])
    ensures
        spec_sample_color(Some([255u8, 255, 255, 255]), [255u8, 255, 255, 255], vertex_color, None)
            == Some(vertex_color),
{
    lemma_multiply_colors_white([255u8, 255, 255, 255]);
    lemma_multiply_colors_white(vertex_color);
}

/// The material a triangle is drawn with: its own if the index is one of
/// the `n_materials` materials, else the first material.
pub fn material_slot(material_index: u32, n_materials: usize) -> (r: usize)
    requires
        n_materials >= 1,
    ensures
        r == (if (material_index as int) < n_materials {
            material_index as usize
        } else {
            0usize
        }),
        r < n_materials,
{
    if (material_index as usize) < n_materials {
        material_index as usize
    } else {
        0
    }
}

} // verus!
