use voxquant::io::magica::encode_color;
use voxquant::vox::{SceneNode, Voxel};
use voxquant::voxquant_core::voxelizer::{material_slot, sample_color, VoxelStore};
use voxquant::voxquant_core::VoxelizationConfig;
use voxquant::voxquant_dotvox::serialization::{
    apply_palette, quantize_colors, vox_data_dynamic, vox_data_static, voxel_colors,
    VoxelWithColor,
};
use voxquant::voxquant_dotvox::voxelization::{position_key, Chunk, VoxelRange};
use voxquant::voxquant_dotvox::{ColorMode, DotVoxConfig};

fn colored(pos: [u8; 3], color: [u8; 4]) -> VoxelWithColor {
    VoxelWithColor { pos, color }
}

#[test]
fn sample_color_tints() {
    let white = [255, 255, 255, 255];
    assert_eq!(sample_color(None, white, [255, 0, 0, 255], None), Some([255, 0, 0, 255]));
    assert_eq!(
        sample_color(Some([128, 128, 128, 255]), [255, 0, 255, 255], white, None),
        Some([128, 0, 128, 255])
    );
}

#[test]
fn sample_color_alpha_threshold() {
    let white = [255, 255, 255, 255];
    assert_eq!(sample_color(None, [255, 255, 255, 100], white, Some(128)), None);
    assert_eq!(sample_color(None, [255, 255, 255, 128], white, Some(128)), Some([255, 255, 255, 128]));
    assert_eq!(sample_color(None, [255, 255, 255, 0], white, None), Some([255, 255, 255, 0]));
}

#[test]
fn material_slot_falls_back_to_first() {
    assert_eq!(material_slot(2, 3), 2);
    assert_eq!(material_slot(3, 3), 0);
    assert_eq!(material_slot(u32::MAX, 1), 0);
}

#[test]
fn config_values() {
    let config = DotVoxConfig { color: ColorMode::Static, no_optimization: true };
    assert_eq!(config.color, ColorMode::Static);
    let v = VoxelizationConfig { res: 1024, mode: voxquant::voxquant_core::voxelizer::VoxelizationMode::Points };
    assert_eq!(v.res, 1024);
}

#[test]
fn chunk_store_keeps_local_positions() {
    let mut chunk: Chunk<VoxelWithColor> = Chunk::new([256, 0, 0]);
    chunk.add_voxel([257, 2, 3], [9, 8, 7, 6], false);
    chunk.add_voxel([0, 0, 0], [9, 8, 7, 6], true);
    assert_eq!(chunk.voxels, vec![colored([1, 2, 3], [9, 8, 7, 6])]);
    let mut indexed: Chunk<Voxel> = Chunk::new([0, 0, 0]);
    indexed.add_voxel([1, 2, 3], [255, 0, 0, 255], false);
    assert_eq!(indexed.voxels, vec![Voxel { x: 1, y: 2, z: 3, i: encode_color([255, 0, 0, 255]) }]);
}

#[test]
fn chunk_range_spans_256() {
    let chunk: Chunk<Voxel> = Chunk::new([256, 0, -512]);
    assert_eq!(chunk.range(), VoxelRange { start: [256, 0, -512], end: [512, 256, -256] });
}

#[test]
fn optimize_sorts_and_dedups() {
    let mut chunk: Chunk<VoxelWithColor> = Chunk::new([0, 0, 0]);
    chunk.voxels = vec![
        colored([2, 0, 0], [1, 0, 0, 255]),
        colored([1, 0, 0], [2, 0, 0, 255]),
        colored([2, 0, 0], [3, 0, 0, 255]),
        colored([0, 0, 1], [4, 0, 0, 255]),
        colored([0, 1, 0], [5, 0, 0, 255]),
    ];
    chunk.optimize();
    let positions: Vec<[u8; 3]> = chunk.voxels.iter().map(|v| v.pos).collect();
    assert_eq!(positions, vec![[1, 0, 0], [2, 0, 0], [0, 1, 0], [0, 0, 1]]);
    let kept_at_2 = chunk.voxels[1].color;
    assert!(kept_at_2 == [1, 0, 0, 255] || kept_at_2 == [3, 0, 0, 255]);
}

#[test]
fn optimize_empty_and_single() {
    let mut chunk: Chunk<Voxel> = Chunk::new([0, 0, 0]);
    chunk.optimize();
    assert!(chunk.voxels.is_empty());
    chunk.voxels.push(Voxel { x: 3, y: 2, z: 1, i: 7 });
    chunk.optimize();
    assert_eq!(chunk.voxels, vec![Voxel { x: 3, y: 2, z: 1, i: 7 }]);
}

#[test]
fn position_key_orders_z_then_y_then_x() {
    assert_eq!(position_key([1, 2, 3]), 3 * 65536 + 2 * 256 + 1);
    assert!(position_key([255, 255, 0]) < position_key([0, 0, 1]));
}

#[test]
fn static_data_shifts_origins() {
    let mut a: Chunk<Voxel> = Chunk::new([0, 0, 0]);
    a.add_voxel([1, 2, 3], [0, 0, 0, 255], false);
    let b: Chunk<Voxel> = Chunk::new([256, 0, 0]);
    let data = vox_data_static(vec![a, b], [-10, 20, 128]);
    assert_eq!(data.models.len(), 2);
    assert_eq!(data.models[0], vec![Voxel { x: 1, y: 2, z: 3, i: 1 }]);
    assert_eq!(data.palette.len(), 256);
    assert!(matches!(data.nodes[2], SceneNode::Transform { child: 3, translation: Some([-10, 20, 128]) }));
    assert!(matches!(data.nodes[4], SceneNode::Transform { child: 5, translation: Some([246, 20, 128]) }));
}

#[test]
fn voxel_colors_flatten_in_order() {
    let mut a: Chunk<VoxelWithColor> = Chunk::new([0, 0, 0]);
    a.voxels = vec![colored([0, 0, 0], [1, 2, 3, 4]), colored([1, 0, 0], [5, 6, 7, 8])];
    let mut b: Chunk<VoxelWithColor> = Chunk::new([256, 0, 0]);
    b.voxels = vec![colored([0, 0, 0], [9, 10, 11, 12])];
    assert_eq!(voxel_colors(&vec![a, b]), vec![[1, 2, 3], [5, 6, 7], [9, 10, 11]]);
}

#[test]
fn apply_palette_uses_running_offsets() {
    let mut a: Chunk<VoxelWithColor> = Chunk::new([0, 0, 0]);
    a.voxels = vec![colored([0, 0, 0], [1, 2, 3, 4]), colored([1, 0, 0], [5, 6, 7, 8])];
    let mut b: Chunk<VoxelWithColor> = Chunk::new([256, 0, 0]);
    b.voxels = vec![colored([4, 5, 6], [9, 10, 11, 12])];
    let (models, origins, palette) =
        apply_palette(vec![a, b], vec![[1, 2, 3], [4, 5, 6]], vec![1, 0, 1]);
    assert_eq!(
        models,
        vec![
            vec![Voxel { x: 0, y: 0, z: 0, i: 1 }, Voxel { x: 1, y: 0, z: 0, i: 0 }],
            vec![Voxel { x: 4, y: 5, z: 6, i: 1 }],
        ]
    );
    assert_eq!(origins, vec![[0, 0, 0], [256, 0, 0]]);
    assert_eq!(palette, vec![[1, 2, 3, 255], [4, 5, 6, 255]]);
}

#[test]
fn quantize_colors_fits_palette() {
    let red = [200, 10, 10, 255];
    let blue = [10, 10, 200, 255];
    let mut a: Chunk<VoxelWithColor> = Chunk::new([0, 0, 0]);
    a.voxels = vec![colored([0, 0, 0], red), colored([1, 0, 0], blue), colored([2, 0, 0], red)];
    let mut b: Chunk<VoxelWithColor> = Chunk::new([256, 0, 0]);
    b.voxels = vec![colored([3, 3, 3], blue)];
    let (models, origins, palette) = quantize_colors(vec![a, b]);
    assert_eq!(origins, vec![[0, 0, 0], [256, 0, 0]]);
    assert!(!palette.is_empty() && palette.len() <= 255);
    assert_eq!(models[0].len(), 3);
    assert_eq!(models[1].len(), 1);
    assert_eq!((models[0][1].x, models[0][1].y, models[0][1].z), (1, 0, 0));
    assert_eq!(models[0][0].i, models[0][2].i);
    assert_eq!(models[0][1].i, models[1][0].i);
    assert_ne!(models[0][0].i, models[0][1].i);
    let near = |p: [u8; 4], c: [u8; 4]| (0..3).all(|k| (p[k] as i32 - c[k] as i32).abs() <= 3) && p[3] == 255;
    assert!(near(palette[models[0][0].i as usize], red));
    assert!(near(palette[models[0][1].i as usize], blue));
}

#[test]
fn quantize_colors_without_voxels() {
    let a: Chunk<VoxelWithColor> = Chunk::new([0, 0, 0]);
    let (models, origins, palette) = quantize_colors(vec![a]);
    assert!(models.is_empty() && origins.is_empty() && palette.is_empty());
}

#[test]
fn dynamic_data_places_models() {
    let mut a: Chunk<VoxelWithColor> = Chunk::new([0, 256, 0]);
    a.voxels = vec![colored([5, 6, 7], [30, 60, 90, 255])];
    let data = vox_data_dynamic(vec![a], [1, 1, 1]);
    assert_eq!(data.models.len(), 1);
    assert_eq!(data.models[0].len(), 1);
    assert!((data.models[0][0].i as usize) < data.palette.len());
    assert!(matches!(data.nodes[2], SceneNode::Transform { child: 3, translation: Some([1, 257, 1]) }));
    let empty = vox_data_dynamic(vec![Chunk::new([0, 0, 0])], [0, 0, 0]);
    assert!(empty.models.is_empty());
    assert_eq!(empty.nodes.len(), 2);
}

#[test]
fn shifted_voxel_lands_at_shifted_position() {
    let mut chunk: Chunk<Voxel> = Chunk::new([512, -256, 0]);
    let p = [600, -1, 255];
    chunk.add_voxel(p, [7, 7, 7, 255], false);
    let shift = [-3, 4, 100];
    let data = vox_data_static(vec![chunk], shift);
    let v = data.models[0][0];
    let t = match data.nodes[2] {
        SceneNode::Transform { translation: Some(t), .. } => t,
        _ => panic!("node 2 is not a placed transform"),
    };
    assert_eq!(
        [v.x as i32 + t[0], v.y as i32 + t[1], v.z as i32 + t[2]],
        [p[0] + shift[0], p[1] + shift[1], p[2] + shift[2]]
    );
}

#[test]
fn dynamic_data_without_voxels_has_empty_palette() {
    let data = vox_data_dynamic(vec![Chunk::new([0, 0, 0]), Chunk::new([256, 0, 0])], [0, 0, 0]);
    assert!(data.models.is_empty());
    assert!(data.palette.is_empty());
    match &data.nodes[1] {
        SceneNode::Group { children } => assert!(children.is_empty()),
        _ => panic!("node 1 is not a group"),
    }
}
