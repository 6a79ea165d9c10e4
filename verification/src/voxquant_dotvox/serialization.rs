//! The voxel types of the `.vox` writer and the assembly of the written
//! scene, with the static palette or with a palette fitted to the
//! voxels' colours.
use crate::io::magica::{encode_color, spec_encode_color};
use crate::vox::{
    identity_index_map, scene_graph_ok, scene_nodes, spec_static_palette_entry, static_palette,
    VoxData, Voxel,
};
use crate::voxquant_dotvox::voxelization::{Chunk, VoxelType};
use quantette::deps::palette::Srgb;
use quantette::{ImageRef, PaletteSize, Pipeline, QuantizeMethod};
use vstd::prelude::*;

verus! {

/// A voxel that keeps its full colour, for palettes fitted to the model.
#[derive(Debug, Clone, Copy, PartialEq, Eq, Hash)]
pub struct VoxelWithColor {
    pub pos: [u8; 3],
    pub color: [u8; 4],
}

impl VoxelType for VoxelWithColor {
    open spec fn spec_from_pos_color(pos: [u8; 3], color: [u8; 4]) -> Self {
        VoxelWithColor { pos, color }
    }

    open spec fn spec_pos(&self) -> [u8; 3] {
        self.pos
    }

    fn from_pos_color(pos: [u8; 3], color: [u8; 4]) -> (r: Self) {
        VoxelWithColor { pos, color }
    }

    fn pos(&self) -> (r: [u8; 3]) {
        self.pos
    }
}

impl VoxelType for Voxel {
    /// A voxel with the static palette index of its colour.
    open spec fn spec_from_pos_color(pos: [u8; 3], color: [u8; 4]) -> Self {
        Voxel { x: pos[0], y: pos[1], z: pos[2], i: spec_encode_color(color) }
    }

    open spec fn spec_pos(&self) -> [u8; 3] {
        [self.x, self.y, self.z]
    }

    fn from_pos_color(pos: [u8; 3], color: [u8; 4]) -> (r: Self) {
        let r = Voxel { x: pos[0], y: pos[1], z: pos[2], i: encode_color(color) };
        proof {
            assert(r.spec_pos() =~= pos);
        }
        r
    }

    fn pos(&self) -> (r: [u8; 3]) {
        [self.x, self.y, self.z]
    }
}

/// Where a chunk at `origin` is placed once the whole model is moved by
/// `shift`.
pub open spec fn spec_shifted(origin: [i32; 3], shift: [i32; 3]) -> [i32; 3] {
    [(origin[0] + shift[0]) as i32, (origin[1] + shift[1]) as i32, (origin[2] + shift[2]) as i32]
}

/// Whether moving `origin` by `shift` stays within `i32`.
pub open spec fn shift_fits(origin: [i32; 3], shift: [i32; 3]) -> bool {
    &&& i32::MIN <= origin[0] + shift[0] <= i32::MAX
    &&& i32::MIN <= origin[1] + shift[1] <= i32::MAX
    &&& i32::MIN <= origin[2] + shift[2] <= i32::MAX
}

fn shifted(origin: [i32; 3], shift: [i32; 3]) -> (r: [i32; 3])
    requires
        shift_fits(origin, shift),
    ensures
        r == spec_shifted(origin, shift),
{
    [origin[0] + shift[0], origin[1] + shift[1], origin[2] + shift[2]]
}

/// A voxel added to a chunk of the `.vox` writer lands, once its model is
/// placed in the scene, at its scene position moved by `shift`.
pub proof fn lemma_shifted_placement(
    position: [i32; 3],
    origin: [i32; 3],
    shift: [i32; 3],
    color: [u8; 4],
)
    requires
        crate::voxelizer::in_chunk(position, origin),
        shift_fits(origin, shift),
    ensures
        ({
            let v = <Voxel as VoxelType>::spec_from_pos_color(
                crate::voxelizer::spec_local_position(position, origin)->0,
                color,
            );
            let t = spec_shifted(origin, shift);
            &&& v.x + t[0] == position[0] + shift[0]
            &&& v.y + t[1] == position[1] + shift[1]
            &&& v.z + t[2] == position[2] + shift[2]
            &&& v.i == spec_encode_color(color)
        }),
{
}

/// The scene of a model whose chunks store static palette indices: model
/// `k` holds the voxels of chunk `k` and is placed at the chunk's origin
/// moved by `shift`; the palette is the static one.
pub fn vox_data_static(chunks: Vec<Chunk<Voxel>>, shift: [i32; 3]) -> (r: VoxData)
    requires
        2 + 2 * chunks@.len() <= u32::MAX,
        forall|k: int| 0 <= k < chunks@.len() ==> shift_fits(#[trigger] chunks@[k].origin, shift),
    ensures
        r.models@.len() == chunks@.len(),
        forall|k: int| 0 <= k < chunks@.len() ==> #[trigger] r.models@[k]@ == chunks@[k].voxels@,
        r.palette@.len() == 256,
        forall|i: int| 0 <= i < 256 ==> #[trigger] r.palette@[i] == spec_static_palette_entry(i),
        r.index_map@.len() == 256,
        forall|i: int| 0 <= i < 256 ==> #[trigger] r.index_map@[i] == i,
        scene_graph_ok(
            r.nodes@,
            Seq::new(chunks@.len(), |k: int| spec_shifted(chunks@[k].origin, shift)),
        ),
{
    let mut chunks = chunks;
    let ghost initial = chunks@;
    let n = chunks.len();
    let mut translations: Vec<[i32; 3]> = Vec::new();
    let mut models: Vec<Vec<Voxel>> = Vec::new();
    let mut k: usize = 0;
    while k < n
        invariant
            n == chunks@.len() == initial.len(),
            k <= n,
            forall|j: int| 0 <= j < n ==> #[trigger] chunks@[j].origin == initial[j].origin,
            forall|j: int| 0 <= j < n ==> shift_fits(#[trigger] initial[j].origin, shift),
            forall|j: int| k <= j < n ==> #[trigger] chunks@[j].voxels@ == initial[j].voxels@,
            models@.len() == k,
            forall|j: int| 0 <= j < k ==> #[trigger] models@[j]@ == initial[j].voxels@,
            translations@ == Seq::new(k as nat, |j: int| spec_shifted(initial[j].origin, shift)),
        decreases n - k,
    {
        translations.push(shifted(chunks[k].origin, shift));
        let mut voxels: Vec<Voxel> = Vec::new();
        std::mem::swap(&mut voxels, &mut chunks[k].voxels);
        models.push(voxels);
        proof {
            assert(translations@ =~= Seq::new(
                (k + 1) as nat,
                |j: int| spec_shifted(initial[j].origin, shift),
            ));
        }
        k += 1;
    }
    let nodes = scene_nodes(&translations);
    VoxData { models, palette: static_palette(), index_map: identity_index_map(), nodes }
}

/// The red, green and blue channels of the voxels of one chunk, in order.
pub open spec fn chunk_colors(voxels: Seq<VoxelWithColor>) -> Seq<[u8; 3]> {
    voxels.map_values(|v: VoxelWithColor| [v.color[0], v.color[1], v.color[2]])
}

/// The red, green and blue channels of every voxel of every chunk, chunk
/// after chunk.
pub open spec fn all_colors(chunks: Seq<Chunk<VoxelWithColor>>) -> Seq<[u8; 3]>
    decreases chunks.len(),
{
    if chunks.len() == 0 {
        Seq::empty()
    } else {
        all_colors(chunks.drop_last()) + chunk_colors(chunks.last().voxels@)
    }
}

proof fn lemma_all_colors_step(chunks: Seq<Chunk<VoxelWithColor>>, k: int)
    requires
        0 <= k < chunks.len(),
    ensures
        all_colors(chunks.take(k + 1)) == all_colors(chunks.take(k)) + chunk_colors(
            chunks[k].voxels@,
        ),
{
    assert(chunks.take(k + 1).drop_last() =~= chunks.take(k));
}

proof fn lemma_all_colors_prefix(chunks: Seq<Chunk<VoxelWithColor>>, m: int, n: int)
    requires
        0 <= m <= n <= chunks.len(),
    ensures
        all_colors(chunks.take(m)).len() <= all_colors(chunks.take(n)).len(),
    decreases n - m,
{
    if m < n {
        lemma_all_colors_prefix(chunks, m, n - 1);
        lemma_all_colors_step(chunks, n - 1);
    }
}

/// The colours of all voxels of all chunks, chunk after chunk, without
/// their alpha.
pub fn voxel_colors(chunks: &Vec<Chunk<VoxelWithColor>>) -> (r: Vec<[u8; 3]>)
    ensures
        r@ == all_colors(chunks@),
{
    let n = chunks.len();
    let mut colors: Vec<[u8; 3]> = Vec::new();
    let mut k: usize = 0;
    while k < n
        invariant
            n == chunks@.len(),
            k <= n,
            colors@ == all_colors(chunks@.take(k as int)),
        decreases n - k,
    {
        let voxels = &chunks[k].voxels;
        let m = voxels.len();
        let ghost start = colors@;
        let mut j: usize = 0;
        while j < m
            invariant
                m == voxels@.len(),
                voxels == &chunks@[k as int].voxels,
                j <= m,
                colors@ == start + chunk_colors(voxels@.take(j as int)),
            decreases m - j,
        {
            let c = voxels[j].color;
            colors.push([c[0], c[1], c[2]]);
            proof {
                assert(chunk_colors(voxels@.take(j + 1)) =~= chunk_colors(voxels@.take(j as int)).push(
                    [c[0], c[1], c[2]],
                ));
            }
            j += 1;
        }
        proof {
            assert(voxels@.take(m as int) =~= voxels@);
            lemma_all_colors_step(chunks@, k as int);
        }
        k += 1;
    }
    proof {
        assert(chunks@.take(n as int) =~= chunks@);
    }
    colors
}

/// Colour `j` of chunk `k` sits at position `offset + j` of the colours of
/// all chunks, where `offset` counts the voxels of the chunks before `k`.
proof fn lemma_all_colors_index(chunks: Seq<Chunk<VoxelWithColor>>, k: int, j: int)
    requires
        0 <= k < chunks.len(),
        0 <= j < chunks[k].voxels@.len(),
    ensures
        all_colors(chunks.take(k)).len() + j < all_colors(chunks).len(),
        all_colors(chunks)[all_colors(chunks.take(k)).len() + j] == chunk_colors(
            chunks[k].voxels@,
        )[j],
{
    lemma_all_colors_step(chunks, k);
    lemma_all_colors_prefix_elems(chunks, k + 1, chunks.len() as int);
    assert(chunks.take(chunks.len() as int) =~= chunks);
    let before = all_colors(chunks.take(k));
    let here = chunk_colors(chunks[k].voxels@);
    let i = before.len() + j;
    assert((before + here)[i] == here[j]);
    assert(all_colors(chunks.take(k + 1))[i] == all_colors(chunks.take(chunks.len() as int))[i]);
}

proof fn lemma_all_colors_prefix_elems(chunks: Seq<Chunk<VoxelWithColor>>, m: int, n: int)
    requires
        0 <= m <= n <= chunks.len(),
    ensures
        all_colors(chunks.take(m)).len() <= all_colors(chunks.take(n)).len(),
        forall|i: int|
            0 <= i < all_colors(chunks.take(m)).len() ==> #[trigger] all_colors(chunks.take(m))[i]
                == all_colors(chunks.take(n))[i],
    decreases n - m,
{
    if m < n {
        lemma_all_colors_prefix_elems(chunks, m, n - 1);
        lemma_all_colors_step(chunks, n - 1);
        assert forall|i: int| 0 <= i < all_colors(chunks.take(m)).len() implies #[trigger] all_colors(
            chunks.take(m),
        )[i] == all_colors(chunks.take(n))[i] by {
            assert(all_colors(chunks.take(m))[i] == all_colors(chunks.take(n - 1))[i]);
        }
    }
}

/// Whether two voxels have the same red, green and blue channels.
pub open spec fn same_rgb(a: VoxelWithColor, b: VoxelWithColor) -> bool {
    a.color[0] == b.color[0] && a.color[1] == b.color[1] && a.color[2] == b.color[2]
}

/// Whether equal colours get equal indices.
pub open spec fn consistent_indices(colors: Seq<[u8; 3]>, indices: Seq<u8>) -> bool {
    forall|i: int, j: int|
        0 <= i < colors.len() && 0 <= j < colors.len() && #[trigger] colors[i] == #[trigger] colors[j]
            ==> indices[i] == indices[j]
}

/// The palette made opaque.
pub open spec fn opaque_palette(palette: Seq<[u8; 3]>) -> Seq<[u8; 4]> {
    palette.map_values(|c: [u8; 3]| [c[0], c[1], c[2], 255u8])
}

/// Whether `models` holds one model per chunk, whose voxels are those of
/// the chunk, in order, with the palette index that `indices` gives them
/// (one index per voxel, chunk after chunk).
pub open spec fn indexed_models(
    chunks: Seq<Chunk<VoxelWithColor>>,
    indices: Seq<u8>,
    models: Seq<Vec<Voxel>>,
) -> bool {
    &&& models.len() == chunks.len()
    &&& forall|k: int| 0 <= k < chunks.len() ==> #[trigger] models[k]@.len() == chunks[k].voxels@.len()
    &&& forall|k: int, j: int|
        0 <= k < chunks.len() && 0 <= j < chunks[k].voxels@.len() ==> #[trigger] models[k]@[j]
            == spec_indexed_voxel(chunks[k].voxels@[j], indices[all_colors(chunks.take(k)).len() + j])
}

/// Whether `palette` and `indices` are an outcome that quantette's Wu
/// quantizer (as `quantize_wu` calls it) can give for `colors` when asked
/// for at most `palette_size` colours. It records which request an
/// outcome answers; what it implies is only what `quantize_wu` states.
pub uninterp spec fn wu_outcome(
    colors: Seq<[u8; 3]>,
    palette_size: u8,
    palette: Seq<[u8; 3]>,
    indices: Seq<u8>,
) -> bool;

/// The voxel of the written model for a voxel with colour: same position,
/// palette index `index`.
pub open spec fn spec_indexed_voxel(v: VoxelWithColor, index: u8) -> Voxel {
    Voxel { x: v.pos[0], y: v.pos[1], z: v.pos[2], i: index }
}

/// Gives every voxel its palette index: `indices` holds one index per
/// voxel, chunk after chunk. Returns the models (one per chunk), the
/// origins of the chunks, and the palette made opaque.
pub fn apply_palette(chunks: Vec<Chunk<VoxelWithColor>>, palette: Vec<[u8; 3]>, indices: Vec<u8>) -> (r: (
    Vec<Vec<Voxel>>,
    Vec<[i32; 3]>,
    Vec<[u8; 4]>,
))
    requires
        indices@.len() == all_colors(chunks@).len(),
    ensures
        r.0@.len() == chunks@.len(),
        r.1@.len() == chunks@.len(),
        forall|k: int| 0 <= k < chunks@.len() ==> #[trigger] r.1@[k] == chunks@[k].origin,
        forall|k: int|
            0 <= k < chunks@.len() ==> #[trigger] r.0@[k]@.len() == chunks@[k].voxels@.len(),
        forall|k: int, j: int|
            0 <= k < chunks@.len() && 0 <= j < chunks@[k].voxels@.len() ==> #[trigger] r.0@[k]@[j]
                == spec_indexed_voxel(
                chunks@[k].voxels@[j],
                indices@[all_colors(chunks@.take(k)).len() + j],
            ),
        r.2@.len() == palette@.len(),
        forall|c: int|
            0 <= c < palette@.len() ==> #[trigger] r.2@[c] == [
                palette@[c][0],
                palette@[c][1],
                palette@[c][2],
                255u8,
            ],
        indexed_models(chunks@, indices@, r.0@),
        r.2@ == opaque_palette(palette@),
{
    let n = chunks.len();
    let mut models: Vec<Vec<Voxel>> = Vec::new();
    let mut origins: Vec<[i32; 3]> = Vec::new();
    let mut offset: usize = 0;
    let mut k: usize = 0;
    while k < n
        invariant
            n == chunks@.len(),
            indices@.len() == all_colors(chunks@).len(),
            k <= n,
            offset == all_colors(chunks@.take(k as int)).len(),
            models@.len() == k,
            origins@.len() == k,
            forall|q: int| 0 <= q < k ==> #[trigger] origins@[q] == chunks@[q].origin,
            forall|q: int| 0 <= q < k ==> #[trigger] models@[q]@.len() == chunks@[q].voxels@.len(),
            forall|q: int, j: int|
                0 <= q < k && 0 <= j < chunks@[q].voxels@.len() ==> #[trigger] models@[q]@[j]
                    == spec_indexed_voxel(
                    chunks@[q].voxels@[j],
                    indices@[all_colors(chunks@.take(q)).len() + j],
                ),
        decreases n - k,
    {
        let voxels = &chunks[k].voxels;
        let m = voxels.len();
        proof {
            lemma_all_colors_step(chunks@, k as int);
            lemma_all_colors_prefix(chunks@, k + 1, n as int);
            assert(chunks@.take(n as int) =~= chunks@);
        }
        let mut model: Vec<Voxel> = Vec::new();
        let mut j: usize = 0;
        while j < m
            invariant
                m == voxels@.len(),
                voxels == &chunks@[k as int].voxels,
                offset + m <= indices.len(),
                j <= m,
                model@.len() == j,
                forall|i: int| 0 <= i < j ==> #[trigger] model@[i] == spec_indexed_voxel(
                    voxels@[i],
                    indices@[offset + i],
                ),
            decreases m - j,
        {
            let v = voxels[j];
            model.push(Voxel { x: v.pos[0], y: v.pos[1], z: v.pos[2], i: indices[offset + j] });
            j += 1;
        }
        models.push(model);
        origins.push(chunks[k].origin);
        assert(offset + m <= indices.len());
        offset = offset + m;
        k += 1;
    }
    let mut colors: Vec<[u8; 4]> = Vec::new();
    let mut c: usize = 0;
    while c < palette.len()
        invariant
            c <= palette@.len(),
            colors@.len() == c,
            forall|q: int| 0 <= q < c ==> #[trigger] colors@[q] == [
                palette@[q][0],
                palette@[q][1],
                palette@[q][2],
                255u8,
            ],
        decreases palette@.len() - c,
    {
        let p = palette[c];
        colors.push([p[0], p[1], p[2], 255]);
        c += 1;
    }
    proof {
        assert(colors@ =~= opaque_palette(palette@));
        assert(indexed_models(chunks@, indices@, models@));
    }
    (models, origins, colors)
}

/// Calls quantette's Wu quantizer (no dithering, in parallel) on the
/// colours as an image one pixel high, asking for at most `palette_size`
/// colours. Trusted, as quantette's source shows it: the palette has
/// between one and `palette_size` colours, there is one index per colour
/// into it, and since an index is looked up from the colour's histogram
/// bin, equal colours get equal indices. Which palette comes out is not
/// stated: it depends on how the parallel work is split.
#[verifier::external_body]
fn quantize_wu(colors: &Vec<[u8; 3]>, palette_size: u8) -> (r: (Vec<[u8; 3]>, Vec<u8>))
    requires
        1 <= colors@.len() <= u32::MAX,
        palette_size >= 1,
    ensures
        1 <= r.0@.len() <= palette_size,
        r.1@.len() == colors@.len(),
        forall|i: int| 0 <= i < r.1@.len() ==> (#[trigger] r.1@[i] as int) < r.0@.len(),
        consistent_indices(colors@, r.1@),
        wu_outcome(colors@, palette_size, r.0@, r.1@),
{
    let pixels: Vec<Srgb<u8>> = colors.iter().map(|c| Srgb::new(c[0], c[1], c[2])).collect();
    let image = ImageRef::new(pixels.len() as u32, 1, pixels.as_slice()).unwrap();
    let output = Pipeline::new().quantize_method(QuantizeMethod::Wu).palette_size(
        PaletteSize::from_u8_clamped(palette_size),
    ).ditherer(None).parallel(true).input_image(image).output_srgb8_indexed_image();
    let palette = output.palette().iter().map(|c| [c.red, c.green, c.blue]).collect();
    (palette, output.indices().to_vec())
}

/// The number of colours the fitted palette may have.
pub const DYNAMIC_PALETTE_SIZE: u8 = 255;

/// Whether, in `models`, voxels of the same colour (red, green and blue)
/// got the same palette index.
pub open spec fn same_color_same_index(
    chunks: Seq<Chunk<VoxelWithColor>>,
    models: Seq<Vec<Voxel>>,
) -> bool {
    forall|k1: int, j1: int, k2: int, j2: int|
        0 <= k1 < chunks.len() && 0 <= j1 < chunks[k1].voxels@.len() && 0 <= k2 < chunks.len() && 0
            <= j2 < chunks[k2].voxels@.len() && #[trigger] same_rgb(
            chunks[k1].voxels@[j1],
            chunks[k2].voxels@[j2],
        ) ==> models[k1]@[j1].i == models[k2]@[j2].i
}

/// What the fitted palette and the models satisfy whatever the quantizer
/// picked: they answer a request for `DYNAMIC_PALETTE_SIZE` colours for
/// the colours of the voxels, the palette (opaque) has between one and 255
/// colours, every voxel keeps its position and gets an index into the
/// palette, and voxels of equal colour get equal indices.
pub open spec fn fitted(
    chunks: Seq<Chunk<VoxelWithColor>>,
    models: Seq<Vec<Voxel>>,
    palette: Seq<[u8; 4]>,
) -> bool {
    &&& exists|p: Seq<[u8; 3]>, ix: Seq<u8>|
        #[trigger] wu_outcome(all_colors(chunks), DYNAMIC_PALETTE_SIZE, p, ix) && ix.len()
            == all_colors(chunks).len() && indexed_models(chunks, ix, models) && palette
            == opaque_palette(p)
    &&& 1 <= palette.len() <= 255
    &&& forall|k: int, j: int|
        0 <= k < chunks.len() && 0 <= j < chunks[k].voxels@.len() ==> {
            &&& (#[trigger] models[k]@[j]).x == chunks[k].voxels@[j].pos[0]
            &&& models[k]@[j].y == chunks[k].voxels@[j].pos[1]
            &&& models[k]@[j].z == chunks[k].voxels@[j].pos[2]
            &&& (models[k]@[j].i as int) < palette.len()
        }
    &&& same_color_same_index(chunks, models)
}

/// Fits a palette of at most 255 colours to the colours of the voxels and
/// gives every voxel the index of its palette colour. Returns one model
/// per chunk, the chunks' origins, and the palette (opaque); without any
/// voxel all three are empty. Which palette the quantizer picks is not
/// stated; what holds of every outcome is `fitted`.
pub fn quantize_colors(chunks: Vec<Chunk<VoxelWithColor>>) -> (r: (
    Vec<Vec<Voxel>>,
    Vec<[i32; 3]>,
    Vec<[u8; 4]>,
))
    requires
        all_colors(chunks@).len() <= u32::MAX,
    ensures
        all_colors(chunks@).len() == 0 ==> r.0@.len() == 0 && r.1@.len() == 0 && r.2@.len() == 0,
        all_colors(chunks@).len() > 0 ==> {
            &&& r.0@.len() == chunks@.len()
            &&& r.1@.len() == chunks@.len()
            &&& forall|k: int| 0 <= k < chunks@.len() ==> #[trigger] r.1@[k] == chunks@[k].origin
            &&& fitted(chunks@, r.0@, r.2@)
        },
{
    let colors = voxel_colors(&chunks);
    if colors.len() == 0 {
        return (Vec::new(), Vec::new(), Vec::new());
    }
    let (palette, indices) = quantize_wu(&colors, DYNAMIC_PALETTE_SIZE);
    let ghost cs = chunks@;
    let ghost p = palette@;
    let ghost ix = indices@;
    let r = apply_palette(chunks, palette, indices);
    proof {
        let models = r.0@;
        assert forall|k: int, j: int|
            0 <= k < cs.len() && 0 <= j < cs[k].voxels@.len() implies {
            &&& (#[trigger] models[k]@[j]).x == cs[k].voxels@[j].pos[0]
            &&& models[k]@[j].y == cs[k].voxels@[j].pos[1]
            &&& models[k]@[j].z == cs[k].voxels@[j].pos[2]
            &&& (models[k]@[j].i as int) < r.2@.len()
        } by {
            lemma_all_colors_index(cs, k, j);
        }
        assert forall|k1: int, j1: int, k2: int, j2: int|
            0 <= k1 < cs.len() && 0 <= j1 < cs[k1].voxels@.len() && 0 <= k2 < cs.len() && 0 <= j2
                < cs[k2].voxels@.len() && #[trigger] same_rgb(
                cs[k1].voxels@[j1],
                cs[k2].voxels@[j2],
            ) implies models[k1]@[j1].i == models[k2]@[j2].i by {
            lemma_all_colors_index(cs, k1, j1);
            lemma_all_colors_index(cs, k2, j2);
            let a = all_colors(cs.take(k1)).len() + j1;
            let b = all_colors(cs.take(k2)).len() + j2;
            assert(colors@[a] =~= colors@[b]);
            assert(ix[a] == ix[b]);
        }
        assert(wu_outcome(all_colors(cs), DYNAMIC_PALETTE_SIZE, p, ix));
        assert(fitted(cs, models, r.2@));
    }
    r
}

/// The scene of a model with a palette fitted to its colours: model `k`
/// holds the voxels of chunk `k` (with their palette indices, as
/// `fitted` states) and is placed at the chunk's origin moved by `shift`.
/// A model without voxels gives an empty scene: no model, an empty group
/// and an empty palette.
pub fn vox_data_dynamic(chunks: Vec<Chunk<VoxelWithColor>>, shift: [i32; 3]) -> (r: VoxData)
    requires
        all_colors(chunks@).len() <= u32::MAX,
        2 + 2 * chunks@.len() <= u32::MAX,
        forall|k: int| 0 <= k < chunks@.len() ==> shift_fits(#[trigger] chunks@[k].origin, shift),
    ensures
        r.index_map@.len() == 256,
        forall|i: int| 0 <= i < 256 ==> #[trigger] r.index_map@[i] == i,
        all_colors(chunks@).len() == 0 ==> r.models@.len() == 0 && r.palette@.len() == 0
            && scene_graph_ok(r.nodes@, Seq::<[i32; 3]>::empty()),
        all_colors(chunks@).len() > 0 ==> {
            &&& fitted(chunks@, r.models@, r.palette@)
            &&& scene_graph_ok(
                r.nodes@,
                Seq::new(chunks@.len(), |k: int| spec_shifted(chunks@[k].origin, shift)),
            )
        },
{
    let ghost cs = chunks@;
    let (models, origins, palette) = quantize_colors(chunks);
    let n = origins.len();
    let mut translations: Vec<[i32; 3]> = Vec::new();
    let mut k: usize = 0;
    while k < n
        invariant
            n == origins@.len(),
            n > 0 ==> n == cs.len() && forall|q: int| 0 <= q < n ==> #[trigger] origins@[q] == cs[q].origin,
            forall|q: int| 0 <= q < cs.len() ==> shift_fits(#[trigger] cs[q].origin, shift),
            k <= n,
            translations@ == Seq::new(k as nat, |q: int| spec_shifted(origins@[q], shift)),
        decreases n - k,
    {
        translations.push(shifted(origins[k], shift));
        proof {
            assert(translations@ =~= Seq::new((k + 1) as nat, |q: int| spec_shifted(origins@[q], shift)));
        }
        k += 1;
    }
    proof {
        if all_colors(cs).len() > 0 {
            assert(translations@ =~= Seq::new(cs.len(), |q: int| spec_shifted(cs[q].origin, shift)));
        } else {
            assert(translations@ =~= Seq::<[i32; 3]>::empty());
        }
    }
    let nodes = scene_nodes(&translations);
    VoxData { models, palette, index_map: identity_index_map(), nodes }
}

} // verus!
