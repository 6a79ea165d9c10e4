use voxquant::io::magica::encode_color;
use voxquant::io::magica_voxel_data;
use voxquant::vox::{scene_nodes, SceneNode, Voxel};
use voxquant::voxelizer::{
    chunk_origin, group_triangles, line_voxel_visible, local_position, Chunk, ChunkRange,
};

#[test]
fn local_position_inside_and_outside() {
    assert_eq!(local_position([300, 10, -200], [256, 0, -256]), Some([44, 10, 56]));
    assert_eq!(local_position([511, 255, -1], [256, 0, -256]), Some([255, 255, 255]));
    assert_eq!(local_position([255, 0, -256], [256, 0, -256]), None);
    assert_eq!(local_position([512, 0, -256], [256, 0, -256]), None);
    assert_eq!(local_position([i32::MIN, 0, 0], [i32::MAX, 0, 0]), None);
}

#[test]
fn chunk_add_voxel_swaps_y_and_z() {
    let mut chunk = Chunk::new([256, 0, -256]);
    let color = [200, 100, 50, 255];
    chunk.add_voxel([300, 10, -200], color);
    assert_eq!(chunk.voxels, vec![Voxel { x: 44, y: 56, z: 10, i: encode_color(color) }]);
    assert_eq!(chunk.origin, [256, 0, -256]);
}

#[test]
fn chunk_drops_voxels_outside() {
    let mut chunk = Chunk::new([0, 0, 0]);
    chunk.add_voxel([-1, 0, 0], [1, 2, 3, 4]);
    chunk.add_voxel([0, 256, 0], [1, 2, 3, 4]);
    assert!(chunk.voxels.is_empty());
    chunk.add_voxel([255, 0, 255], [0, 0, 0, 255]);
    assert_eq!(chunk.voxels, vec![Voxel { x: 255, y: 255, z: 0, i: 1 }]);
}

#[test]
fn chunk_origin_scales_by_256() {
    assert_eq!(chunk_origin([1, -2, 3]), [256, -512, 768]);
    assert_eq!(chunk_origin([0, 0, 0]), [0, 0, 0]);
}

#[test]
fn line_voxels_need_more_than_half_alpha() {
    assert!(line_voxel_visible([0, 0, 0, 129]));
    assert!(!line_voxel_visible([255, 255, 255, 128]));
}

#[test]
fn group_triangles_bins_by_chunk() {
    let ranges = vec![
        ChunkRange { min: [0, 0, 0], max: [1, 0, 0] },
        ChunkRange { min: [1, 0, 0], max: [1, 1, 0] },
        ChunkRange { min: [5, 5, 5], max: [4, 5, 5] },
    ];
    let groups = group_triangles(&ranges);
    assert_eq!(
        groups,
        vec![([0, 0, 0], vec![0]), ([1, 0, 0], vec![0, 1]), ([1, 1, 0], vec![1])]
    );
}

#[test]
fn group_triangles_every_pair_once() {
    let ranges = vec![
        ChunkRange { min: [-1, -1, -1], max: [0, 0, 0] },
        ChunkRange { min: [0, 0, 0], max: [0, 0, 0] },
        ChunkRange { min: [-1, 0, -1], max: [-1, 0, 0] },
    ];
    let groups = group_triangles(&ranges);
    let mut pairs = 0;
    for (c, tris) in &groups {
        assert!(!tris.is_empty());
        assert!(tris.windows(2).all(|w| w[0] < w[1]));
        for &t in tris {
            let r = ranges[t];
            assert!((0..3).all(|k| r.min[k] <= c[k] && c[k] <= r.max[k]));
        }
        pairs += tris.len();
    }
    assert_eq!(pairs, 8 + 1 + 2);
    let mut keys: Vec<[i32; 3]> = groups.iter().map(|g| g.0).collect();
    keys.sort();
    keys.dedup();
    assert_eq!(keys.len(), groups.len());
    assert_eq!(groups.len(), 8);
}

#[test]
fn group_triangles_empty() {
    assert!(group_triangles(&Vec::new()).is_empty());
}

#[test]
fn scene_nodes_layout() {
    let nodes = scene_nodes(&vec![[1, 2, 3], [4, 5, 6]]);
    assert_eq!(nodes.len(), 6);
    assert!(matches!(nodes[0], SceneNode::Transform { child: 1, translation: None }));
    match &nodes[1] {
        SceneNode::Group { children } => assert_eq!(children, &vec![2, 4]),
        _ => panic!("node 1 is not a group"),
    }
    assert!(matches!(nodes[2], SceneNode::Transform { child: 3, translation: Some([1, 2, 3]) }));
    assert!(matches!(nodes[3], SceneNode::Shape { model_id: 0 }));
    assert!(matches!(nodes[4], SceneNode::Transform { child: 5, translation: Some([4, 5, 6]) }));
    assert!(matches!(nodes[5], SceneNode::Shape { model_id: 1 }));
}

#[test]
fn magica_voxel_data_places_chunks_z_up() {
    let mut a = Chunk::new([0, 0, 0]);
    a.add_voxel([1, 2, 3], [255, 0, 0, 255]);
    let b = Chunk::new([256, 512, 768]);
    let expected_a = a.voxels.clone();
    let data = magica_voxel_data(vec![a, b]);
    assert_eq!(data.models.len(), 2);
    assert_eq!(data.models[0], expected_a);
    assert!(data.models[1].is_empty());
    assert_eq!(data.palette.len(), 256);
    assert_eq!(data.index_map.len(), 256);
    assert_eq!(data.nodes.len(), 6);
    assert!(matches!(data.nodes[2], SceneNode::Transform { child: 3, translation: Some([0, 0, 0]) }));
    assert!(matches!(
        data.nodes[4],
        SceneNode::Transform { child: 5, translation: Some([256, 768, 512]) }
    ));
}

#[test]
fn placed_voxel_lands_at_scene_position() {
    let origin = [256, 0, -256];
    let p = [300, 10, -200];
    let mut chunk = Chunk::new(origin);
    chunk.add_voxel(p, [1, 2, 3, 255]);
    let data = magica_voxel_data(vec![chunk]);
    let v = data.models[0][0];
    let t = match data.nodes[2] {
        SceneNode::Transform { translation: Some(t), .. } => t,
        _ => panic!("node 2 is not a placed transform"),
    };
    assert_eq!([v.x as i32 + t[0], v.y as i32 + t[1], v.z as i32 + t[2]], [p[0], p[2], p[1]]);
}
