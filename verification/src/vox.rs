//! The MagicaVoxel scene that the voxelizer writes: voxel models, a
//! palette and a scene graph placing one model per chunk.
use crate::io::magica::{
    decode_color, lemma_decode_encode_close, spec_decode_color, spec_encode_color,
};
use vstd::prelude::*;

verus! {

/// A voxel of a MagicaVoxel model: its position in the model and its
/// palette index.
#[derive(Debug, Clone, Copy, PartialEq, Eq, Hash)]
pub struct Voxel {
    pub x: u8,
    pub y: u8,
    pub z: u8,
    pub i: u8,
}

/// A node of the MagicaVoxel scene graph.
#[derive(Debug, Clone)]
pub enum SceneNode {
    /// Moves its child by `translation` (none for the root transform).
    Transform { child: u32, translation: Option<[i32; 3]> },
    /// Groups the nodes at the given indices.
    Group { children: Vec<u32> },
    /// Shows the model with index `model_id`.
    Shape { model_id: u32 },
}

/// A complete MagicaVoxel scene: one 256^3 model per chunk, the
/// palette, and the scene graph.
pub struct VoxData {
    pub models: Vec<Vec<Voxel>>,
    pub palette: Vec<[u8; 4]>,
    pub index_map: Vec<u8>,
    pub nodes: Vec<SceneNode>,
}

/// The index map that sends every voxel colour index to itself.
pub fn identity_index_map() -> (r: Vec<u8>)
    ensures
        r@.len() == 256,
        forall|i: int| 0 <= i < 256 ==> #[trigger] r@[i] == i,
{
    let mut map: Vec<u8> = Vec::with_capacity(256);
    let mut index: u16 = 0;
    while index <= 255
        invariant
            index <= 256,
            map@.len() == index,
            forall|i: int| 0 <= i < index ==> #[trigger] map@[i] == i,
        decreases 256 - index,
    {
        map.push(index as u8);
        index += 1;
    }
    map
}

/// Entry `index` of the static palette: the colour that the index stands
/// for, fully opaque.
pub open spec fn spec_static_palette_entry(index: int) -> [u8; 4] {
    let c = spec_decode_color(index as u8);
    [c[0], c[1], c[2], 255]
}

/// The static palette shows every colour as the nearest shade: the
/// entry at the colour's index is within 25 of it on red and blue and
/// within 21 on green.
pub proof fn lemma_static_palette_close(color: [u8; 4])
    ensures
        ({
            let shown = spec_static_palette_entry(spec_encode_color(color) as int);
            &&& -25 <= shown[0] - color[0] <= 25
            &&& -21 <= shown[1] - color[1] <= 21
            &&& -25 <= shown[2] - color[2] <= 25
            &&& shown[3] == 255
        }),
{
    lemma_decode_encode_close(color);
}

/// The static palette: entry `i` is the colour of palette index `i`,
/// opaque, for all 256 indices.
pub fn static_palette() -> (r: Vec<[u8; 4]>)
    ensures
        r@.len() == 256,
        forall|i: int| 0 <= i < 256 ==> #[trigger] r@[i] == spec_static_palette_entry(i),
{
    let mut palette: Vec<[u8; 4]> = Vec::with_capacity(256);
    let mut index: u16 = 0;
    while index <= 255
        invariant
            index <= 256,
            palette@.len() == index,
            forall|i: int| 0 <= i < index ==> #[trigger] palette@[i] == spec_static_palette_entry(i),
        decreases 256 - index,
    {
        let color = decode_color(index as u8);
        palette.push([color[0], color[1], color[2], 255]);
        index += 1;
    }
    palette
}

/// The scene graph for models placed at `translations`: a root
/// transform (node 0) over a group (node 1) whose children are one
/// transform per model (node `2 + 2k`, moving by `translations[k]`),
/// each over a shape showing model `k` (node `3 + 2k`).
pub open spec fn scene_graph_ok(nodes: Seq<SceneNode>, translations: Seq<[i32; 3]>) -> bool {
    let n = translations.len();
    &&& nodes.len() == 2 + 2 * n
    &&& nodes[0] == (SceneNode::Transform { child: 1, translation: None })
    &&& nodes[1] matches SceneNode::Group { children } && children@ == Seq::new(
        n,
        |k: int| (2 + 2 * k) as u32,
    )
    &&& forall|k: int|
        0 <= k < n ==> #[trigger] nodes[2 + 2 * k] == (SceneNode::Transform {
            child: (3 + 2 * k) as u32,
            translation: Some(translations[k]),
        }) && nodes[3 + 2 * k] == (SceneNode::Shape { model_id: k as u32 })
}

/// Builds the scene graph that places model `k` at `translations[k]`.
pub fn scene_nodes(translations: &Vec<[i32; 3]>) -> (r: Vec<SceneNode>)
    requires
        2 + 2 * translations@.len() <= u32::MAX,
    ensures
        scene_graph_ok(r@, translations@),
{
    let mut nodes: Vec<SceneNode> = Vec::new();
    nodes.push(SceneNode::Transform { child: 1, translation: None });
    nodes.push(SceneNode::Group { children: Vec::new() });
    let mut children: Vec<u32> = Vec::new();
    let n = translations.len();
    let mut model_id: usize = 0;
    while model_id < n
        invariant
            n == translations@.len(),
            2 + 2 * n <= u32::MAX,
            model_id <= n,
            nodes@.len() == 2 + 2 * model_id,
            nodes@[0] == (SceneNode::Transform { child: 1, translation: None }),
            children@ == Seq::new(model_id as nat, |k: int| (2 + 2 * k) as u32),
            forall|k: int|
                0 <= k < model_id ==> #[trigger] nodes@[2 + 2 * k] == (SceneNode::Transform {
                    child: (3 + 2 * k) as u32,
                    translation: Some(translations@[k]),
                }) && nodes@[3 + 2 * k] == (SceneNode::Shape { model_id: k as u32 }),
        decreases n - model_id,
    {
        let transform_index = nodes.len() as u32;
        let shape_index = transform_index + 1;
        nodes.push(
            SceneNode::Transform { child: shape_index, translation: Some(translations[model_id]) },
        );
        nodes.push(SceneNode::Shape { model_id: model_id as u32 });
        children.push(transform_index);
        proof {
            assert(children@ =~= Seq::new((model_id + 1) as nat, |k: int| (2 + 2 * k) as u32));
        }
        model_id += 1;
    }
    nodes.set(1, SceneNode::Group { children });
    nodes
}

} // verus!
