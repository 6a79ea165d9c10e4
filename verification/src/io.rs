//! Colour encoding and scene assembly for the MagicaVoxel output.
use crate::vox::{
    identity_index_map, scene_graph_ok, scene_nodes, spec_static_palette_entry, static_palette,
    VoxData, Voxel,
};
use crate::voxelizer::{in_chunk, spec_chunk_voxel, spec_local_position, Chunk};
use vstd::prelude::*;

pub mod magica;

verus! {

/// Where the model of a chunk at `origin` is placed in the MagicaVoxel
/// scene: the scene is Z up, so the Y and Z coordinates trade places.
pub open spec fn spec_model_translation(origin: [i32; 3]) -> [i32; 3] {
    [origin[0], origin[2], origin[1]]
}

/// A voxel added to a chunk lands, once its model is placed in the
/// scene, at its scene position with the Y and Z axes traded (Z up).
pub proof fn lemma_voxel_placement(position: [i32; 3], origin: [i32; 3], color: [u8; 4])
    requires
        in_chunk(position, origin),
    ensures
        ({
            let v = spec_chunk_voxel(spec_local_position(position, origin)->0, color);
            let t = spec_model_translation(origin);
            &&& v.x + t[0] == position[0]
            &&& v.y + t[1] == position[2]
            &&& v.z + t[2] == position[1]
        }),
{
}

/// The MagicaVoxel scene of the given chunks, with the static palette:
/// model `k` holds the voxels of chunk `k` and is placed at the chunk's
/// origin (Z up).
pub fn magica_voxel_data(chunks: Vec<Chunk>) -> (r: VoxData)
    requires
        2 + 2 * chunks@.len() <= u32::MAX,
    ensures
        r.models@.len() == chunks@.len(),
        forall|k: int| 0 <= k < chunks@.len() ==> #[trigger] r.models@[k]@ == chunks@[k].voxels@,
        r.palette@.len() == 256,
        forall|i: int| 0 <= i < 256 ==> #[trigger] r.palette@[i] == spec_static_palette_entry(i),
        r.index_map@.len() == 256,
        forall|i: int| 0 <= i < 256 ==> #[trigger] r.index_map@[i] == i,
        scene_graph_ok(
            r.nodes@,
            Seq::new(chunks@.len(), |k: int| spec_model_translation(chunks@[k].origin)),
        ),
{
    let mut chunks = chunks;
    let ghost initial = chunks@;
    let n = chunks.len();
    let mut translations: Vec<[i32; 3]> = Vec::new();
    let mut models: Vec<Vec<Voxel>> = Vec::new();
    let mut k: usize = 0;
    while k < n
        invariant
            n == chunks@.len() == initial.len(),
            k <= n,
            forall|j: int| 0 <= j < n ==> #[trigger] chunks@[j].origin == initial[j].origin,
            forall|j: int| k <= j < n ==> #[trigger] chunks@[j].voxels@ == initial[j].voxels@,
            models@.len() == k,
            forall|j: int| 0 <= j < k ==> #[trigger] models@[j]@ == initial[j].voxels@,
            translations@ == Seq::new(k as nat, |j: int| spec_model_translation(initial[j].origin)),
        decreases n - k,
    {
        let origin = chunks[k].origin;
        translations.push([origin[0], origin[2], origin[1]]);
        let mut voxels: Vec<Voxel> = Vec::new();
        std::mem::swap(&mut voxels, &mut chunks[k].voxels);
        models.push(voxels);
        proof {
            assert(translations@ =~= Seq::new(
                (k + 1) as nat,
                |j: int| spec_model_translation(initial[j].origin),
            ));
        }
        k += 1;
    }
    let nodes = scene_nodes(&translations);
    VoxData { models, palette: static_palette(), index_map: identity_index_map(), nodes }
}

} // verus!
