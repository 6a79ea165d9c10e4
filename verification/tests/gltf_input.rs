use voxquant::gltf2::{
    alpha_threshold as cli_alpha_threshold, material_image, primitive_material_index,
    TextureSource,
};
use voxquant::voxquant_core::scene::WrapMode;
use voxquant::voxquant_gltf::mesh::{default_indices, triangle_indices, vertex_color, PrimitiveMode};
use voxquant::voxquant_gltf::{check_image_size, ImageFormat};
use voxquant::voxquant_gltf::{
    alpha_threshold, get_material_texture_data, material_base_color, primitive_material,
    AlphaMode, GltfError, TextureSlot,
};

fn slot(image: usize) -> TextureSlot {
    TextureSlot { image, wrap: [WrapMode::Repeat, WrapMode::ClampToEdge], tex_coord: 0 }
}

#[test]
fn triangle_list_in_threes() {
    let idx = vec![0, 1, 2, 2, 1, 3, 4];
    assert_eq!(triangle_indices(PrimitiveMode::Triangles, &idx, 5), vec![[0, 1, 2], [2, 1, 3]]);
}

#[test]
fn malformed_triangles_are_dropped() {
    let idx = vec![0, 1, 5, 0, 1, 2];
    assert_eq!(triangle_indices(PrimitiveMode::Triangles, &idx, 3), vec![[0, 1, 2]]);
    assert!(triangle_indices(PrimitiveMode::Triangles, &idx, 0).is_empty());
}

#[test]
fn strip_flips_odd_triangles() {
    let idx = vec![0, 1, 2, 3, 4];
    assert_eq!(
        triangle_indices(PrimitiveMode::TriangleStrip, &idx, 5),
        vec![[0, 1, 2], [1, 3, 2], [2, 3, 4]]
    );
    assert!(triangle_indices(PrimitiveMode::TriangleStrip, &vec![0, 1], 5).is_empty());
}

#[test]
fn fan_shares_first_vertex() {
    let idx = vec![0, 1, 2, 3];
    assert_eq!(triangle_indices(PrimitiveMode::TriangleFan, &idx, 4), vec![[0, 1, 2], [0, 2, 3]]);
    assert!(triangle_indices(PrimitiveMode::TriangleFan, &vec![0, 1], 4).is_empty());
}

#[test]
fn lines_and_points_give_no_triangles() {
    let idx = vec![0, 1, 2, 3, 4, 5];
    for mode in [
        PrimitiveMode::Points,
        PrimitiveMode::Lines,
        PrimitiveMode::LineLoop,
        PrimitiveMode::LineStrip,
    ] {
        assert!(triangle_indices(mode, &idx, 6).is_empty());
    }
}

#[test]
fn default_indices_count_vertices() {
    assert_eq!(default_indices(4), vec![0, 1, 2, 3]);
    assert!(default_indices(0).is_empty());
    let idx = default_indices(6);
    assert_eq!(triangle_indices(PrimitiveMode::Triangles, &idx, 6), vec![[0, 1, 2], [3, 4, 5]]);
}

#[test]
fn vertex_color_defaults_to_white() {
    let colors = vec![[1, 2, 3, 4]];
    assert_eq!(vertex_color(&colors, 0), [1, 2, 3, 4]);
    assert_eq!(vertex_color(&colors, 1), [255, 255, 255, 255]);
}

#[test]
fn texture_priority_emissive_first() {
    assert_eq!(get_material_texture_data(Some(slot(2)), Some(slot(0)), None, 3).unwrap(), Some(slot(2)));
    assert_eq!(get_material_texture_data(None, Some(slot(1)), Some(slot(0)), 2).unwrap(), Some(slot(1)));
    assert_eq!(get_material_texture_data(None, None, Some(slot(0)), 1).unwrap(), Some(slot(0)));
    assert_eq!(get_material_texture_data(None, None, None, 0).unwrap(), None);
}

#[test]
fn texture_out_of_bounds() {
    let r = get_material_texture_data(Some(slot(5)), Some(slot(0)), None, 3);
    assert!(matches!(r, Err(GltfError::OutOfBounds)));
    let r = get_material_texture_data(None, None, Some(slot(1)), 1);
    assert!(matches!(r, Err(GltfError::OutOfBounds)));
}

#[test]
fn alpha_thresholds() {
    assert_eq!(alpha_threshold(AlphaMode::Opaque, 10), None);
    assert_eq!(alpha_threshold(AlphaMode::Mask, 127), Some(127));
    assert_eq!(alpha_threshold(AlphaMode::Blend, 10), Some(250));
    assert_eq!(cli_alpha_threshold(AlphaMode::Blend, 10), Some(128));
    assert_eq!(cli_alpha_threshold(AlphaMode::Mask, 63), Some(63));
    assert_eq!(cli_alpha_threshold(AlphaMode::Opaque, 63), None);
}

#[test]
fn emissive_base_color() {
    assert_eq!(material_base_color(true, [10, 20, 30], [1, 2, 3, 4]), [10, 20, 30, 255]);
    assert_eq!(material_base_color(false, [10, 20, 30], [1, 2, 3, 4]), [1, 2, 3, 4]);
}

#[test]
fn primitive_materials() {
    assert_eq!(primitive_material(None, 3), 2);
    assert_eq!(primitive_material(Some(0), 3), 0);
    assert_eq!(primitive_material_index(None, 5), 4);
    assert_eq!(primitive_material_index(Some(2), 5), 2);
}

#[test]
fn cli_texture_priority_base_first() {
    assert_eq!(material_image(Some(1), Some(0), None, 2), Ok(Some(1)));
    assert_eq!(material_image(None, Some(0), Some(1), 2), Ok(Some(0)));
    assert_eq!(material_image(None, None, Some(0), 1), Ok(Some(0)));
    assert_eq!(material_image(None, None, None, 0), Ok(None));
}

#[test]
fn cli_texture_errors_name_the_texture() {
    assert_eq!(material_image(Some(2), Some(0), None, 2), Err(TextureSource::BaseColor));
    assert_eq!(material_image(None, Some(4), Some(0), 2), Err(TextureSource::Emissive));
    assert_eq!(material_image(None, None, Some(9), 2), Err(TextureSource::Diffuse));
}

#[test]
fn image_size_must_match_exactly() {
    assert!(check_image_size(ImageFormat::R8G8B8A8, 2, 3, 24).is_ok());
    assert!(check_image_size(ImageFormat::R16G16B16, 1, 1, 6).is_ok());
    assert!(check_image_size(ImageFormat::R32G32B32A32FLOAT, 0, 5, 0).is_ok());
    assert!(matches!(check_image_size(ImageFormat::R8, 4, 4, 15), Err(GltfError::InvalidImageDimensions)));
    assert!(matches!(check_image_size(ImageFormat::R8G8, 4, 4, 33), Err(GltfError::InvalidImageDimensions)));
    assert!(matches!(
        check_image_size(ImageFormat::R32G32B32FLOAT, u32::MAX, u32::MAX, 12),
        Err(GltfError::InvalidImageDimensions)
    ));
}
