//! glTF 2.0 loading for the command line tool: which image a material is
//! drawn with, its alpha threshold, and which material a primitive uses.
pub use crate::voxquant_gltf::AlphaMode;
use vstd::prelude::*;

verus! {

/// Which texture of a material is meant.
#[derive(Debug, Clone, Copy, PartialEq, Eq)]
pub enum TextureSource {
    /// The base colour texture.
    BaseColor,
    /// The emissive texture.
    Emissive,
    /// The diffuse texture of the specular-glossiness extension.
    Diffuse,
}

/// The image a material is drawn with: the first present of its base
/// colour, emissive and diffuse textures (as image indices), which must
/// be one of the `n_images` images; else the texture that points past
/// them.
pub open spec fn spec_material_image(
    base_color: Option<usize>,
    emissive: Option<usize>,
    diffuse: Option<usize>,
    n_images: usize,
) -> Result<Option<usize>, TextureSource> {
    match (base_color, emissive, diffuse) {
        (Some(i), _, _) => if i < n_images {
            Ok(Some(i))
        } else {
            Err(TextureSource::BaseColor)
        },
        (None, Some(i), _) => if i < n_images {
            Ok(Some(i))
        } else {
            Err(TextureSource::Emissive)
        },
        (None, None, Some(i)) => if i < n_images {
            Ok(Some(i))
        } else {
            Err(TextureSource::Diffuse)
        },
        (None, None, None) => Ok(None),
    }
}

/// Picks the image of a material: that of the base colour texture if
/// there is one, else of the emissive texture, else of the diffuse
/// texture, else none (a flat colour). Fails, naming the texture, if the
/// picked texture refers to an image past the `n_images` images.
pub fn material_image(
    base_color: Option<usize>,
    emissive: Option<usize>,
    diffuse: Option<usize>,
    n_images: usize,
) -> (r: Result<Option<usize>, TextureSource>)
    ensures
        r == spec_material_image(base_color, emissive, diffuse, n_images),
{
    let (picked, source) = match (base_color, emissive, diffuse) {
        (Some(i), _, _) => (Some(i), TextureSource::BaseColor),
        (None, Some(i), _) => (Some(i), TextureSource::Emissive),
        (None, None, Some(i)) => (Some(i), TextureSource::Diffuse),
        (None, None, None) => (None, TextureSource::Diffuse),
    };
    match picked {
        None => Ok(None),
        Some(i) => if i < n_images {
            Ok(Some(i))
        } else {
            Err(source)
        },
    }
}

/// The base colour texture comes first: when a material has one, its
/// image is picked if it exists (else the base colour texture is named as
/// broken), whatever the emissive and diffuse textures are. Without it
/// the emissive texture is picked over the diffuse one, and without any
/// texture the material is a flat colour. A picked image always exists
/// and is one of the material's textures.
pub proof fn lemma_base_color_texture_first(
    base_color: Option<usize>,
    emissive: Option<usize>,
    diffuse: Option<usize>,
    other_emissive: Option<usize>,
    other_diffuse: Option<usize>,
    n_images: usize,
)
    ensures
        base_color matches Some(i) ==> {
            &&& spec_material_image(base_color, emissive, diffuse, n_images) == spec_material_image(
                base_color,
                other_emissive,
                other_diffuse,
                n_images,
            )
            &&& spec_material_image(base_color, emissive, diffuse, n_images) == (if i < n_images {
                Ok::<Option<usize>, TextureSource>(Some(i))
            } else {
                Err(TextureSource::BaseColor)
            })
        },
        base_color is None ==> (emissive matches Some(i) ==> spec_material_image(
            base_color,
            emissive,
            diffuse,
            n_images,
        ) == (if i < n_images {
            Ok::<Option<usize>, TextureSource>(Some(i))
        } else {
            Err(TextureSource::Emissive)
        })),
        base_color is None && emissive is None ==> (diffuse matches Some(i) ==> spec_material_image(
            base_color,
            emissive,
            diffuse,
            n_images,
        ) == (if i < n_images {
            Ok::<Option<usize>, TextureSource>(Some(i))
        } else {
            Err(TextureSource::Diffuse)
        })),
        base_color is None && emissive is None && diffuse is None ==> spec_material_image(
            base_color,
            emissive,
            diffuse,
            n_images,
        ) == Ok::<Option<usize>, TextureSource>(None),
        spec_material_image(base_color, emissive, diffuse, n_images) matches Ok(Some(i)) ==> i
            < n_images && (base_color == Some(i) || emissive == Some(i) || diffuse == Some(i)),
{
}

/// The alpha threshold of a material: none when opaque, the cutoff
/// (scaled to `0..=255`) when masked, and 128 when blended.
pub fn alpha_threshold(mode: AlphaMode, mask_cutoff: u8) -> (r: Option<u8>)
    ensures
        r == (match mode {
            AlphaMode::Opaque => None,
            AlphaMode::Mask => Some(mask_cutoff),
            AlphaMode::Blend => Some(128u8),
        }),
{
    match mode {
        AlphaMode::Opaque => None,
        AlphaMode::Mask => Some(mask_cutoff),
        AlphaMode::Blend => Some(128),
    }
}

/// The material index stored with the triangles of a primitive: its
/// material, or for a primitive without one the default material, which
/// closes the list of `n_materials` materials (as a `u32`, wrapping).
pub fn primitive_material_index(material: Option<usize>, n_materials: usize) -> (r: u32)
    requires
        n_materials >= 1,
    ensures
        r == (match material {
            Some(m) => m as u32,
            None => (n_materials - 1) as u32,
        }),
{
    match material {
        Some(m) => m as u32,
        None => (n_materials - 1) as u32,
    }
}

} // verus!
