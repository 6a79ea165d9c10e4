//! glTF 2.0 input: the decisions taken while a glTF document is turned
//! into a scene (which texture a material uses, its alpha threshold,
//! which material a primitive uses, and how primitives are cut into
//! triangles).
use crate::voxquant_core::scene::WrapMode;
use vstd::prelude::*;

pub mod mesh;

verus! {

#[verifier::external_type_specification]
#[verifier::external_body]
pub struct ExGltfError(gltf::Error);

#[verifier::external_type_specification]
#[verifier::external_body]
pub struct ExIoError(std::io::Error);

/// Error during parsing and scene loading of a glTF file.
#[derive(Debug)]
pub enum GltfError {
    /// Parsing the document failed.
    Gltf(gltf::Error),
    /// Reading failed.
    Io(std::io::Error),
    /// A primitive of a mesh has no vertex positions.
    PrimitiveWithNoPositions,
    /// A loaded image has too few or too many bytes for its width and
    /// height.
    InvalidImageDimensions,
    /// A material refers to an image that the document does not have.
    OutOfBounds,
}

/// The glTF input format. The `.gltf` form needs the directory of the
/// file to find external buffers; `.glb` does not.
pub struct Gltf;

/// How a material treats the alpha channel.
#[derive(Debug, Clone, Copy, PartialEq, Eq)]
pub enum AlphaMode {
    /// Alpha is ignored.
    Opaque,
    /// Texels below a cutoff are discarded.
    Mask,
    /// Alpha blends; treated as almost opaque.
    Blend,
}

/// The alpha threshold of a material: none when opaque, the cutoff
/// (scaled to `0..=255`) when masked, and 250 when blended, so that
/// nearly everything that is not opaque is dropped.
pub open spec fn spec_alpha_threshold(mode: AlphaMode, mask_cutoff: u8) -> Option<u8> {
    match mode {
        AlphaMode::Opaque => None,
        AlphaMode::Mask => Some(mask_cutoff),
        AlphaMode::Blend => Some(250),
    }
}

/// The alpha threshold below which voxels of a material are dropped;
/// `mask_cutoff` is the material's cutoff scaled to `0..=255`.
pub fn alpha_threshold(mode: AlphaMode, mask_cutoff: u8) -> (r: Option<u8>)
    ensures
        r == spec_alpha_threshold(mode, mask_cutoff),
{
    match mode {
        AlphaMode::Opaque => None,
        AlphaMode::Mask => Some(mask_cutoff),
        AlphaMode::Blend => Some(250),
    }
}

/// The base colour of a material: its emissive colour, opaque, if it is
/// emissive, else its base colour factor.
pub fn material_base_color(emissive: bool, emissive_color: [u8; 3], base_color: [u8; 4]) -> (r: [u8; 4])
    ensures
        r == (if emissive {
            [emissive_color[0], emissive_color[1], emissive_color[2], 255u8]
        } else {
            base_color
        }),
{
    if emissive {
        [emissive_color[0], emissive_color[1], emissive_color[2], 255]
    } else {
        base_color
    }
}

/// A texture a material refers to: the index of its image, its wrap
/// modes along `u` and `v`, and the set of texture coordinates it uses.
#[derive(Debug, Clone, Copy, PartialEq, Eq)]
pub struct TextureSlot {
    pub image: usize,
    pub wrap: [WrapMode; 2],
    pub tex_coord: u32,
}

/// The texture a material is drawn with: the first present of its
/// emissive, base colour and diffuse textures, which must refer to one of
/// the `n_images` images.
pub open spec fn spec_material_texture(
    emissive: Option<TextureSlot>,
    base_color: Option<TextureSlot>,
    diffuse: Option<TextureSlot>,
    n_images: usize,
) -> Result<Option<TextureSlot>, ()> {
    let first = if emissive is Some {
        emissive
    } else if base_color is Some {
        base_color
    } else {
        diffuse
    };
    match first {
        None => Ok(None),
        Some(t) => if t.image < n_images {
            Ok(Some(t))
        } else {
            Err(())
        },
    }
}

/// Picks the texture of a material: the emissive texture if there is
/// one, else the base colour texture, else the diffuse texture. Fails with
/// `OutOfBounds` if the picked texture refers to an image past the
/// `n_images` images of the document.
pub fn get_material_texture_data(
    emissive: Option<TextureSlot>,
    base_color: Option<TextureSlot>,
    diffuse: Option<TextureSlot>,
    n_images: usize,
) -> (r: Result<Option<TextureSlot>, GltfError>)
    ensures
        match spec_material_texture(emissive, base_color, diffuse, n_images) {
            Ok(t) => r matches Ok(u) && u == t,
            Err(_) => r matches Err(GltfError::OutOfBounds),
        },
{
    let first = if emissive.is_some() {
        emissive
    } else if base_color.is_some() {
        base_color
    } else {
        diffuse
    };
    match first {
        None => Ok(None),
        Some(t) => if t.image < n_images {
            Ok(Some(t))
        } else {
            Err(GltfError::OutOfBounds)
        },
    }
}

/// The emissive texture comes first: when a material has one, it is the
/// texture picked (or the lookup fails if its image does not exist),
/// whatever the base colour and diffuse textures are; without it, a base
/// colour texture is picked over a diffuse one; without any texture there
/// is none.
pub proof fn lemma_texture_priority(
    emissive: Option<TextureSlot>,
    base_color: Option<TextureSlot>,
    diffuse: Option<TextureSlot>,
    other_base: Option<TextureSlot>,
    other_diffuse: Option<TextureSlot>,
    n_images: usize,
)
    ensures
        emissive matches Some(t) ==> {
            &&& spec_material_texture(emissive, base_color, diffuse, n_images) == spec_material_texture(
                emissive,
                other_base,
                other_diffuse,
                n_images,
            )
            &&& spec_material_texture(emissive, base_color, diffuse, n_images) == (if t.image
                < n_images {
                Ok::<Option<TextureSlot>, ()>(Some(t))
            } else {
                Err(())
            })
        },
        emissive is None ==> (base_color matches Some(t) ==> {
            &&& spec_material_texture(emissive, base_color, diffuse, n_images) == spec_material_texture(
                emissive,
                base_color,
                other_diffuse,
                n_images,
            )
            &&& spec_material_texture(emissive, base_color, diffuse, n_images) == (if t.image
                < n_images {
                Ok::<Option<TextureSlot>, ()>(Some(t))
            } else {
                Err(())
            })
        }),
        emissive is None && base_color is None ==> (diffuse matches Some(t) ==> spec_material_texture(
            emissive,
            base_color,
            diffuse,
            n_images,
        ) == (if t.image < n_images {
            Ok::<Option<TextureSlot>, ()>(Some(t))
        } else {
            Err(())
        })),
        emissive is None && base_color is None && diffuse is None ==> spec_material_texture(
            emissive,
            base_color,
            diffuse,
            n_images,
        ) == Ok::<Option<TextureSlot>, ()>(None),
        spec_material_texture(emissive, base_color, diffuse, n_images) matches Ok(Some(t)) ==> (
        emissive == Some(t) || base_color == Some(t) || diffuse == Some(t)) && t.image < n_images,
{
}

/// The pixel formats of decoded glTF images.
#[derive(Debug, Clone, Copy, PartialEq, Eq)]
pub enum ImageFormat {
    R8,
    R8G8,
    R8G8B8,
    R8G8B8A8,
    R16,
    R16G16,
    R16G16B16,
    R16G16B16A16,
    R32G32B32FLOAT,
    R32G32B32A32FLOAT,
}

/// The number of channels of a format: one per letter R, G, B, A in its
/// name.
pub open spec fn channel_count(format: ImageFormat) -> int {
    match format {
        ImageFormat::R8 | ImageFormat::R16 => 1,
        ImageFormat::R8G8 | ImageFormat::R16G16 => 2,
        ImageFormat::R8G8B8 | ImageFormat::R16G16B16 | ImageFormat::R32G32B32FLOAT => 3,
        ImageFormat::R8G8B8A8 | ImageFormat::R16G16B16A16 | ImageFormat::R32G32B32A32FLOAT => 4,
    }
}

/// The width of one channel of a format in bytes: 8, 16 or 32 bits.
pub open spec fn channel_width(format: ImageFormat) -> int {
    match format {
        ImageFormat::R8 | ImageFormat::R8G8 | ImageFormat::R8G8B8 | ImageFormat::R8G8B8A8 => 1,
        ImageFormat::R16 | ImageFormat::R16G16 | ImageFormat::R16G16B16 | ImageFormat::R16G16B16A16 => 2,
        ImageFormat::R32G32B32FLOAT | ImageFormat::R32G32B32A32FLOAT => 4,
    }
}

/// The number of bytes of one pixel of a format.
pub open spec fn spec_bytes_per_pixel(format: ImageFormat) -> int {
    match format {
        ImageFormat::R8 => 1,
        ImageFormat::R8G8 => 2,
        ImageFormat::R8G8B8 => 3,
        ImageFormat::R8G8B8A8 => 4,
        ImageFormat::R16 => 2,
        ImageFormat::R16G16 => 4,
        ImageFormat::R16G16B16 => 6,
        ImageFormat::R16G16B16A16 => 8,
        ImageFormat::R32G32B32FLOAT => 12,
        ImageFormat::R32G32B32A32FLOAT => 16,
    }
}

/// The number of bytes of one pixel of a format.
pub fn bytes_per_pixel(format: ImageFormat) -> (r: u8)
    ensures
        r == channel_count(format) * channel_width(format),
        r == spec_bytes_per_pixel(format),
{
    match format {
        ImageFormat::R8 => 1,
        ImageFormat::R8G8 => 2,
        ImageFormat::R8G8B8 => 3,
        ImageFormat::R8G8B8A8 => 4,
        ImageFormat::R16 => 2,
        ImageFormat::R16G16 => 4,
        ImageFormat::R16G16B16 => 6,
        ImageFormat::R16G16B16A16 => 8,
        ImageFormat::R32G32B32FLOAT => 12,
        ImageFormat::R32G32B32A32FLOAT => 16,
    }
}

/// Checks that a decoded image holds exactly the bytes its width and
/// height call for: `InvalidImageDimensions` when it has too few or too
/// many.
pub fn check_image_size(format: ImageFormat, width: u32, height: u32, byte_len: usize) -> (r: Result<(), GltfError>)
    ensures
        byte_len == width as int * height as int * spec_bytes_per_pixel(format) ==> r is Ok,
        byte_len != width as int * height as int * spec_bytes_per_pixel(format) ==> r matches Err(
            GltfError::InvalidImageDimensions,
        ),
        r is Ok <==> byte_len == width as int * height as int * (channel_count(format) * channel_width(
            format,
        )),
{
    let bpp = bytes_per_pixel(format);
    assert(0 <= width as int * height as int <= 0xffff_ffff * 0xffff_ffff) by (nonlinear_arith)
        requires
            width <= 0xffff_ffff,
            height <= 0xffff_ffff,
    ;
    assert(0 <= width as int * height as int * bpp as int <= 0xffff_ffff * 0xffff_ffff * 16)
        by (nonlinear_arith)
        requires
            0 <= width as int * height as int <= 0xffff_ffff * 0xffff_ffff,
            bpp <= 16,
    ;
    let needed: u128 = width as u128 * height as u128 * bpp as u128;
    if byte_len as u128 == needed {
        Ok(())
    } else {
        Err(GltfError::InvalidImageDimensions)
    }
}

/// A pixel is as many bytes as its format has channels times the bytes
/// of one channel; so an image of `width` by `height` pixels is accepted
/// exactly when it holds `width * height * channels * channel bytes`
/// bytes (three per pixel for 8-bit RGB).
pub proof fn lemma_pixel_is_channels_times_width(format: ImageFormat, width: u32, height: u32, byte_len: usize)
    ensures
        spec_bytes_per_pixel(format) == channel_count(format) * channel_width(format),
        (byte_len == width as int * height as int * spec_bytes_per_pixel(format)) <==> (byte_len
            == width as int * height as int * (channel_count(format) * channel_width(format))),
{
}

/// The material a primitive uses: its own, or the default material that
/// closes the list of `n_materials` materials.
pub fn primitive_material(material: Option<usize>, n_materials: usize) -> (r: usize)
    requires
        n_materials >= 1,
    ensures
        r == (match material {
            Some(m) => m,
            None => (n_materials - 1) as usize,
        }),
{
    match material {
        Some(m) => m,
        None => n_materials - 1,
    }
}

} // verus!
