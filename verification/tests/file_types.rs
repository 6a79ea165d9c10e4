use voxquant::voxquant_core::voxelizer::VoxelizationMode as CoreMode;
use voxquant::{get_extension, ColorMode, FileTypeError, InputType, OutputType, VoxelizationMode};

#[test]
fn gltf_and_glb_are_inputs() {
    assert_eq!(InputType::from_file("scene.gltf"), Ok(InputType::GlbGltf));
    assert_eq!(InputType::from_file("models/car.glb"), Ok(InputType::GlbGltf));
}

#[test]
fn unknown_input_extension_is_rejected() {
    assert_eq!(InputType::from_file("mesh.obj"), Err(FileTypeError::UnsupportedExtension));
    assert_eq!(InputType::from_file("MODEL.GLTF"), Err(FileTypeError::UnsupportedExtension));
    assert_eq!(InputType::from_file("out.vox"), Err(FileTypeError::UnsupportedExtension));
}

#[test]
fn missing_extension_is_rejected() {
    assert_eq!(InputType::from_file("README"), Err(FileTypeError::NoExtension));
    assert_eq!(OutputType::from_file(".hidden"), Err(FileTypeError::NoExtension));
}

#[test]
fn vox_is_output() {
    assert_eq!(OutputType::from_file("dir/out.vox"), Ok(OutputType::MagicaVoxel));
    assert_eq!(OutputType::from_file("out.png"), Err(FileTypeError::UnsupportedExtension));
}

#[test]
fn from_extension_exact() {
    assert_eq!(InputType::from_extension("glb"), Ok(InputType::GlbGltf));
    assert_eq!(InputType::from_extension("gltf"), Ok(InputType::GlbGltf));
    assert_eq!(InputType::from_extension("gl"), Err(FileTypeError::UnsupportedExtension));
    assert_eq!(OutputType::from_extension("vox"), Ok(OutputType::MagicaVoxel));
    assert_eq!(OutputType::from_extension(""), Err(FileTypeError::UnsupportedExtension));
}

#[test]
fn extension_is_after_last_dot() {
    assert_eq!(get_extension("archive.tar.gz"), Ok("gz".to_string()));
    assert_eq!(get_extension("dir.v1/file.vox"), Ok("vox".to_string()));
    assert_eq!(get_extension("trailing."), Ok(String::new()));
    assert_eq!(get_extension("dir.d/noext"), Err(FileTypeError::NoExtension));
    assert_eq!(get_extension(".hidden"), Err(FileTypeError::NoExtension));
    assert_eq!(get_extension(".hidden.glb"), Ok("glb".to_string()));
    assert_eq!(get_extension("..glb"), Ok("glb".to_string()));
}

#[test]
fn mode_names() {
    assert_eq!(VoxelizationMode::Triangles.to_string(), "triangles");
    assert_eq!(VoxelizationMode::Wireframe.to_string(), "wireframe");
    assert_eq!(VoxelizationMode::Points.to_string(), "points");
    assert_eq!(CoreMode::FatTriangles.to_string(), "fat-triangles");
    assert_eq!(CoreMode::Triangles.to_string(), "triangles");
    assert_eq!(ColorMode::Static.to_string(), "static");
    assert_eq!(ColorMode::Dynamic.to_string(), "dynamic");
}
