//! Voxel chunks of the MagicaVoxel output and the binning of triangles
//! into chunks.
use crate::io::magica::{encode_color, spec_encode_color};
use crate::vox::Voxel;
use std::collections::HashMap;
use vstd::prelude::*;

verus! {

/// Which part of each triangle is turned into voxels.
#[derive(Debug, Clone, Copy, PartialEq, Eq)]
pub enum VoxelizationMode {
    /// The whole surface of each triangle.
    Triangles,
    /// Only the three edges of each triangle.
    Wireframe,
    /// Only the three vertices of each triangle.
    Points,
}

impl VoxelizationMode {
    /// The name of the mode on the command line.
    pub open spec fn spec_name(self) -> Seq<char> {
        match self {
            VoxelizationMode::Triangles => "triangles"@,
            VoxelizationMode::Wireframe => "wireframe"@,
            VoxelizationMode::Points => "points"@,
        }
    }

    /// The name of the mode on the command line.
    pub fn to_string(&self) -> (r: String)
        ensures
            r@ == self.spec_name(),
    {
        match self {
            VoxelizationMode::Triangles => "triangles".to_owned(),
            VoxelizationMode::Wireframe => "wireframe".to_owned(),
            VoxelizationMode::Points => "points".to_owned(),
        }
    }
}

/// Whether `position - origin` lies in the 256^3 cube of a chunk.
pub open spec fn in_chunk(position: [i32; 3], origin: [i32; 3]) -> bool {
    &&& 0 <= position[0] - origin[0] <= 255
    &&& 0 <= position[1] - origin[1] <= 255
    &&& 0 <= position[2] - origin[2] <= 255
}

/// The position of `position` inside the chunk at `origin`, if it lies
/// in that chunk.
pub open spec fn spec_local_position(position: [i32; 3], origin: [i32; 3]) -> Option<[u8; 3]> {
    if in_chunk(position, origin) {
        Some(
            [
                (position[0] - origin[0]) as u8,
                (position[1] - origin[1]) as u8,
                (position[2] - origin[2]) as u8,
            ],
        )
    } else {
        None
    }
}

/// The position of `position` inside the chunk whose first voxel is at
/// `origin`, or `None` where it lies outside the chunk.
pub fn local_position(position: [i32; 3], origin: [i32; 3]) -> (r: Option<[u8; 3]>)
    ensures
        r == spec_local_position(position, origin),
{
    let dx = position[0] as i64 - origin[0] as i64;
    let dy = position[1] as i64 - origin[1] as i64;
    let dz = position[2] as i64 - origin[2] as i64;
    if 0 <= dx && dx <= 255 && 0 <= dy && dy <= 255 && 0 <= dz && dz <= 255 {
        Some([dx as u8, dy as u8, dz as u8])
    } else {
        None
    }
}

/// The voxel stored for a voxel at chunk-local `local` (Y up) with colour
/// `color`: MagicaVoxel is Z up, so the Y and Z axes trade places, and the
/// colour becomes its static palette index.
pub open spec fn spec_chunk_voxel(local: [u8; 3], color: [u8; 4]) -> Voxel {
    Voxel { x: local[0], y: local[2], z: local[1], i: spec_encode_color(color) }
}

/// A 256^3 chunk of the output: the voxels of one MagicaVoxel model and
/// the position of its first voxel in the scene.
pub struct Chunk {
    pub voxels: Vec<Voxel>,
    pub origin: [i32; 3],
}

impl Chunk {
    /// An empty chunk whose first voxel is at `origin`.
    pub fn new(origin: [i32; 3]) -> (r: Self)
        ensures
            r.voxels@ == Seq::<Voxel>::empty(),
            r.origin == origin,
    {
        Chunk { voxels: Vec::new(), origin }
    }

    /// Adds a voxel at the scene position `position` with colour `value`.
    /// Positions outside the chunk are dropped; the others are stored
    /// relative to the chunk, Z up, with the static palette index of the
    /// colour.
    pub fn add_voxel(&mut self, position: [i32; 3], value: [u8; 4])
        ensures
            final(self).origin == old(self).origin,
            final(self).voxels@ == match spec_local_position(position, old(self).origin) {
                Some(local) => old(self).voxels@.push(spec_chunk_voxel(local, value)),
                None => old(self).voxels@,
            },
    {
        if let Some(local) = local_position(position, self.origin) {
            self.voxels.push(Voxel { x: local[0], y: local[2], z: local[1], i: encode_color(value) });
        }
    }
}

/// Whether the chunk coordinates `c` scaled to voxel positions (times
/// 256) fit in `i32`.
pub open spec fn chunk_origin_fits(c: [i32; 3]) -> bool {
    &&& i32::MIN <= c[0] * 256 <= i32::MAX
    &&& i32::MIN <= c[1] * 256 <= i32::MAX
    &&& i32::MIN <= c[2] * 256 <= i32::MAX
}

/// The scene position of the first voxel of the chunk at chunk
/// coordinates `c`: 256 voxels per chunk along each axis.
pub fn chunk_origin(c: [i32; 3]) -> (r: [i32; 3])
    requires
        chunk_origin_fits(c),
    ensures
        r[0] == c[0] * 256,
        r[1] == c[1] * 256,
        r[2] == c[2] * 256,
{
    [c[0] * 256, c[1] * 256, c[2] * 256]
}

/// Whether a voxel of an edge is drawn: only voxels that are more than
/// half opaque (alpha above 128).
pub fn line_voxel_visible(color: [u8; 4]) -> (r: bool)
    ensures
        r == (color[3] > 128),
{
    color[3] > 128
}

/// The box of chunk coordinates that one triangle touches, from `min` to
/// `max` on each axis, both included (empty where `min > max`).
#[derive(Debug, Clone, Copy, PartialEq, Eq)]
pub struct ChunkRange {
    pub min: [i32; 3],
    pub max: [i32; 3],
}

/// Whether the chunk at chunk coordinates `c` lies in the box `r`.
pub open spec fn in_range(r: ChunkRange, c: [i32; 3]) -> bool {
    &&& r.min[0] <= c[0] <= r.max[0]
    &&& r.min[1] <= c[1] <= r.max[1]
    &&& r.min[2] <= c[2] <= r.max[2]
}

/// The indices, in increasing order, of the triangles among the first
/// `t` whose box contains the chunk `c`.
pub open spec fn covering(ranges: Seq<ChunkRange>, c: [i32; 3], t: nat) -> Seq<usize>
    decreases t,
{
    if t == 0 {
        Seq::empty()
    } else {
        let before = covering(ranges, c, (t - 1) as nat);
        if in_range(ranges[t - 1], c) {
            before.push((t - 1) as usize)
        } else {
            before
        }
    }
}

/// A key that tells chunk coordinates apart: the three coordinates,
/// each shifted to be non-negative, as the digits of a base-`2^32`
/// number.
pub open spec fn spec_chunk_key(c: [i32; 3]) -> int {
    (c[0] + 0x8000_0000) * 0x1_0000_0000_0000_0000 + (c[1] + 0x8000_0000) * 0x1_0000_0000 + (c[2]
        + 0x8000_0000)
}

proof fn lemma_chunk_key_injective(a: [i32; 3], b: [i32; 3])
    requires
        spec_chunk_key(a) == spec_chunk_key(b),
    ensures
        a == b,
{
    let a0 = a[0] + 0x8000_0000;
    let a1 = a[1] + 0x8000_0000;
    let a2 = a[2] + 0x8000_0000;
    let b0 = b[0] + 0x8000_0000;
    let b1 = b[1] + 0x8000_0000;
    let b2 = b[2] + 0x8000_0000;
    assert(a0 == b0) by (nonlinear_arith)
        requires
            a0 * 0x1_0000_0000_0000_0000 + a1 * 0x1_0000_0000 + a2 == b0 * 0x1_0000_0000_0000_0000
                + b1 * 0x1_0000_0000 + b2,
            0 <= a1 < 0x1_0000_0000,
            0 <= a2 < 0x1_0000_0000,
            0 <= b1 < 0x1_0000_0000,
            0 <= b2 < 0x1_0000_0000,
    ;
    assert(a1 == b1) by (nonlinear_arith)
        requires
            a1 * 0x1_0000_0000 + a2 == b1 * 0x1_0000_0000 + b2,
            0 <= a2 < 0x1_0000_0000,
            0 <= b2 < 0x1_0000_0000,
    ;
    assert(a =~= b);
}

fn chunk_key(c: [i32; 3]) -> (r: u128)
    ensures
        r as int == spec_chunk_key(c),
{
    let x = (c[0] as i64 + 0x8000_0000) as u128;
    let y = (c[1] as i64 + 0x8000_0000) as u128;
    let z = (c[2] as i64 + 0x8000_0000) as u128;
    x * 0x1_0000_0000_0000_0000 + y * 0x1_0000_0000 + z
}

/// The state of the binning after the first `t` triangles and, of
/// triangle `t`, the chunks in `done`: every group lists the triangles
/// covering its chunk so far, `slots` finds the group of a chunk by its
/// key, and every chunk covered so far has a group.
spec fn groups_ok(
    groups: Seq<([i32; 3], Vec<usize>)>,
    slots: Map<u128, usize>,
    ranges: Seq<ChunkRange>,
    t: nat,
    done: Set<[i32; 3]>,
) -> bool {
    &&& forall|i: int|
        #![trigger groups[i]]
        0 <= i < groups.len() ==> {
            &&& slots.contains_key(spec_chunk_key(groups[i].0) as u128)
            &&& slots[spec_chunk_key(groups[i].0) as u128] == i
            &&& groups[i].1@ == covering(ranges, groups[i].0, t) + if done.contains(groups[i].0) {
                seq![t as usize]
            } else {
                Seq::empty()
            }
            &&& groups[i].1@.len() > 0
        }
    &&& forall|k: u128| #[trigger]
        slots.contains_key(k) ==> slots[k] < groups.len() && spec_chunk_key(groups[slots[k] as int].0)
            == k
    &&& forall|c: [i32; 3]|
        (covering(ranges, c, t).len() > 0 || done.contains(c)) ==> #[trigger] slots.contains_key(
            spec_chunk_key(c) as u128,
        )
}

/// Adds triangle `t` to the group of chunk `c`, opening the group if the
/// chunk has none yet.
fn add_to_group(
    groups: &mut Vec<([i32; 3], Vec<usize>)>,
    slots: &mut HashMap<u128, usize>,
    c: [i32; 3],
    t: usize,
    Ghost(ranges): Ghost<Seq<ChunkRange>>,
    Ghost(done): Ghost<Set<[i32; 3]>>,
)
    requires
        groups_ok(old(groups)@, old(slots)@, ranges, t as nat, done),
        !done.contains(c),
    ensures
        groups_ok(final(groups)@, final(slots)@, ranges, t as nat, done.insert(c)),
{
    broadcast use vstd::std_specs::hash::group_hash_axioms;

    let key = chunk_key(c);
    proof {
        assert(0 <= spec_chunk_key(c) < 0x1_0000_0000_0000_0000_0000_0000);
    }
    match slots.get(&key) {
        Some(slot) => {
            let idx = *slot;
            proof {
                lemma_chunk_key_injective(groups@[idx as int].0, c);
            }
            let mut list: Vec<usize> = Vec::new();
            std::mem::swap(&mut list, &mut groups[idx].1);
            list.push(t);
            groups.set(idx, (c, list));
            proof {
                let ng = groups@;
                assert(spec_chunk_key(c) as u128 == key);
                assert(ng[idx as int].0 == c);
                assert(!done.contains(c));
                assert(old(groups)@[idx as int].1@ =~= covering(ranges, c, t as nat));
                assert(ng[idx as int].1@ =~= covering(ranges, c, t as nat) + seq![t]);
                assert forall|i: int| #![trigger ng[i]] 0 <= i < ng.len() implies {
                    &&& ng[i].1@ == covering(ranges, ng[i].0, t as nat) + if done.insert(
                        c,
                    ).contains(ng[i].0) {
                        seq![t as usize]
                    } else {
                        Seq::empty()
                    }
                    &&& ng[i].1@.len() > 0
                } by {
                    if i != idx {
                        assert(ng[i] == old(groups)@[i]);
                        if ng[i].0 == c {
                            assert(old(slots)@[spec_chunk_key(ng[i].0) as u128] == i);
                        }
                    }
                }
                assert forall|i: int| #![trigger ng[i]] 0 <= i < ng.len() implies {
                    &&& slots@.contains_key(spec_chunk_key(ng[i].0) as u128)
                    &&& slots@[spec_chunk_key(ng[i].0) as u128] == i
                } by {
                    if i != idx {
                        assert(ng[i] == old(groups)@[i]);
                    }
                }
                assert forall|c2: [i32; 3]|
                    (covering(ranges, c2, t as nat).len() > 0 || done.insert(c).contains(
                        c2,
                    )) implies #[trigger] slots@.contains_key(spec_chunk_key(c2) as u128) by {
                    if c2 != c {
                        assert(done.contains(c2) || covering(ranges, c2, t as nat).len() > 0);
                    }
                }
            }
        },
        None => {
            let old_len = groups.len();
            let mut list: Vec<usize> = Vec::new();
            list.push(t);
            proof {
                assert(list@ =~= covering(ranges, c, t as nat) + seq![t]) by {
                    if covering(ranges, c, t as nat).len() > 0 {
                        assert(slots@.contains_key(spec_chunk_key(c) as u128));
                    }
                }
            }
            groups.push((c, list));
            slots.insert(key, old_len);
            proof {
                let ng = groups@;
                assert forall|i: int| #![trigger ng[i]] 0 <= i < ng.len() implies {
                    &&& slots@.contains_key(spec_chunk_key(ng[i].0) as u128)
                    &&& slots@[spec_chunk_key(ng[i].0) as u128] == i
                    &&& ng[i].1@ == covering(ranges, ng[i].0, t as nat) + if done.insert(
                        c,
                    ).contains(ng[i].0) {
                        seq![t as usize]
                    } else {
                        Seq::empty()
                    }
                } by {
                    if i < old_len {
                        assert(ng[i] == old(groups)@[i]);
                        if ng[i].0 == c {
                            assert(old(slots)@.contains_key(spec_chunk_key(c) as u128));
                        }
                        if spec_chunk_key(ng[i].0) as u128 == key {
                            lemma_chunk_key_injective(ng[i].0, c);
                        }
                    }
                }
                assert forall|k: u128| #[trigger]
                    slots@.contains_key(k) implies slots@[k] < ng.len() && spec_chunk_key(
                    ng[slots@[k] as int].0,
                ) == k by {
                    if k != key {
                        assert(ng[slots@[k] as int] == old(groups)@[old(slots)@[k] as int]);
                    }
                }
            }
        },
    }
}

/// Whether the chunk `c` of the box `r` comes, in the order z, then y,
/// then x, before the chunk `(x, y, z)`.
spec fn visited(r: ChunkRange, c: [i32; 3], z: int, y: int, x: int) -> bool {
    &&& in_range(r, c)
    &&& (c[2] < z || (c[2] == z && (c[1] < y || (c[1] == y && c[0] < x))))
}

/// Bins the triangles by the chunks they touch: `ranges[t]` is the box of
/// chunks that triangle `t` touches. Every chunk touched by some
/// triangle gets one group, listing the indices of the triangles that
/// touch it in increasing order.
pub fn group_triangles(ranges: &Vec<ChunkRange>) -> (r: Vec<([i32; 3], Vec<usize>)>)
    ensures
        forall|i: int|
            0 <= i < r@.len() ==> #[trigger] r@[i].1@ == covering(ranges@, r@[i].0, ranges@.len())
                && r@[i].1@.len() > 0,
        forall|i: int, j: int| 0 <= i < j < r@.len() ==> r@[i].0 != r@[j].0,
        forall|t: int, c: [i32; 3]|
            0 <= t < ranges@.len() && #[trigger] in_range(ranges@[t], c) ==> exists|i: int|
                0 <= i < r@.len() && #[trigger] r@[i].0 == c,
{
    let mut groups: Vec<([i32; 3], Vec<usize>)> = Vec::new();
    let mut slots: HashMap<u128, usize> = HashMap::new();
    let n = ranges.len();
    let mut t: usize = 0;
    while t < n
        invariant
            n == ranges@.len(),
            t <= n,
            groups_ok(groups@, slots@, ranges@, t as nat, Set::empty()),
        decreases n - t,
    {
        let r = ranges[t];
        let ghost mut done: Set<[i32; 3]> = Set::empty();
        let mut z: i64 = r.min[2] as i64;
        while z <= r.max[2] as i64
            invariant
                r == ranges@[t as int],
                t < n == ranges@.len(),
                r.min[2] <= z,
                z <= r.max[2] + 1 || z == r.min[2],
                forall|c: [i32; 3]| #[trigger] done.contains(c) <==> visited(r, c, z as int, r.min[1] as int, r.min[0] as int),
                groups_ok(groups@, slots@, ranges@, t as nat, done),
            decreases r.max[2] + 1 - z,
        {
            let mut y: i64 = r.min[1] as i64;
            while y <= r.max[1] as i64
                invariant
                    r == ranges@[t as int],
                    t < n == ranges@.len(),
                    r.min[2] <= z <= r.max[2],
                    r.min[1] <= y,
                    y <= r.max[1] + 1 || y == r.min[1],
                    forall|c: [i32; 3]| #[trigger] done.contains(c) <==> visited(r, c, z as int, y as int, r.min[0] as int),
                    groups_ok(groups@, slots@, ranges@, t as nat, done),
                decreases r.max[1] + 1 - y,
            {
                let mut x: i64 = r.min[0] as i64;
                while x <= r.max[0] as i64
                    invariant
                        r == ranges@[t as int],
                        t < n == ranges@.len(),
                        r.min[2] <= z <= r.max[2],
                        r.min[1] <= y <= r.max[1],
                        r.min[0] <= x,
                        x <= r.max[0] + 1 || x == r.min[0],
                        forall|c: [i32; 3]| #[trigger] done.contains(c) <==> visited(r, c, z as int, y as int, x as int),
                        groups_ok(groups@, slots@, ranges@, t as nat, done),
                    decreases r.max[0] + 1 - x,
                {
                    let c: [i32; 3] = [x as i32, y as i32, z as i32];
                    proof {
                        assert(!visited(r, c, z as int, y as int, x as int));
                    }
                    add_to_group(&mut groups, &mut slots, c, t, Ghost(ranges@), Ghost(done));
                    proof {
                        let old_done = done;
                        done = done.insert(c);
                        assert forall|c2: [i32; 3]| #[trigger] done.contains(c2) <==> visited(r, c2, z as int, y as int, (x + 1) as int) by {
                            if c2[0] == c[0] && c2[1] == c[1] && c2[2] == c[2] {
                                assert(c2 =~= c);
                            } else {
                                assert(old_done.contains(c2) == visited(r, c2, z as int, y as int, x as int));
                            }
                        }
                    }
                    x += 1;
                }
                proof {
                    assert forall|c2: [i32; 3]| #[trigger] done.contains(c2) <==> visited(r, c2, z as int, (y + 1) as int, r.min[0] as int) by {
                        assert(done.contains(c2) == visited(r, c2, z as int, y as int, x as int));
                    }
                }
                y += 1;
            }
            proof {
                assert forall|c2: [i32; 3]| #[trigger] done.contains(c2) <==> visited(r, c2, (z + 1) as int, r.min[1] as int, r.min[0] as int) by {
                    assert(done.contains(c2) == visited(r, c2, z as int, y as int, r.min[0] as int));
                }
            }
            z += 1;
        }
        proof {
            assert forall|c2: [i32; 3]| #[trigger] done.contains(c2) <==> in_range(r, c2) by {
                assert(done.contains(c2) == visited(r, c2, z as int, r.min[1] as int, r.min[0] as int));
            }
            lemma_groups_next_triangle(groups@, slots@, ranges@, t as nat, done);
        }
        t += 1;
    }
    proof {
        assert forall|i: int, j: int| 0 <= i < j < groups@.len() implies groups@[i].0 != groups@[j].0 by {
            assert(slots@.contains_key(spec_chunk_key(groups@[i].0) as u128));
            assert(slots@.contains_key(spec_chunk_key(groups@[j].0) as u128));
        }
        assert forall|tt: int, c: [i32; 3]|
            0 <= tt < ranges@.len() && #[trigger] in_range(ranges@[tt], c) implies exists|i: int|
                0 <= i < groups@.len() && #[trigger] groups@[i].0 == c by {
            lemma_covering_contains(ranges@, c, n as nat, tt);
            assert(slots@.contains_key(spec_chunk_key(c) as u128));
            let k = spec_chunk_key(c) as u128;
            let i = slots@[k] as int;
            assert(0 <= spec_chunk_key(c) < 0x1_0000_0000_0000_0000_0000_0000);
            lemma_chunk_key_injective(groups@[i].0, c);
        }
    }
    groups
}

proof fn lemma_covering_step(ranges: Seq<ChunkRange>, c: [i32; 3], t: nat)
    ensures
        covering(ranges, c, t + 1) == (if in_range(ranges[t as int], c) {
            covering(ranges, c, t).push(t as usize)
        } else {
            covering(ranges, c, t)
        }),
{
}

proof fn lemma_groups_next_triangle(
    groups: Seq<([i32; 3], Vec<usize>)>,
    slots: Map<u128, usize>,
    ranges: Seq<ChunkRange>,
    t: nat,
    done: Set<[i32; 3]>,
)
    requires
        t < ranges.len(),
        groups_ok(groups, slots, ranges, t, done),
        forall|c: [i32; 3]| #[trigger] done.contains(c) <==> in_range(ranges[t as int], c),
    ensures
        groups_ok(groups, slots, ranges, t + 1, Set::empty()),
{
    assert forall|i: int| 0 <= i < groups.len() implies groups[i].1@ == covering(ranges, groups[i].0, t + 1) + if Set::<[i32; 3]>::empty().contains(groups[i].0) {
        seq![(t + 1) as usize]
    } else {
        Seq::empty()
    } by {
        let c = groups[i].0;
        lemma_covering_step(ranges, c, t);
        assert(done.contains(c) == in_range(ranges[t as int], c));
        assert(groups[i].1@ =~= covering(ranges, groups[i].0, t + 1));
    }
    assert forall|c: [i32; 3]|
        (covering(ranges, c, t + 1).len() > 0 || Set::<[i32; 3]>::empty().contains(c)) implies #[trigger] slots.contains_key(spec_chunk_key(c) as u128) by {
        lemma_covering_step(ranges, c, t);
        if in_range(ranges[t as int], c) {
            assert(done.contains(c));
        }
    }
}

/// The triangle `tt` is listed in `covering(ranges, c, t)` exactly when
/// it comes before `t` and its box contains `c`; the list is strictly
/// increasing.
pub proof fn lemma_covering_contains(ranges: Seq<ChunkRange>, c: [i32; 3], t: nat, tt: int)
    requires
        t <= ranges.len() <= usize::MAX,
    ensures
        covering(ranges, c, t).contains(tt as usize) && 0 <= tt <= usize::MAX <==> (0 <= tt < t && in_range(ranges[tt], c)),
        forall|i: int, j: int| 0 <= i < j < covering(ranges, c, t).len() ==> covering(ranges, c, t)[i] < covering(ranges, c, t)[j],
        forall|i: int| 0 <= i < covering(ranges, c, t).len() ==> covering(ranges, c, t)[i] < t,
    decreases t,
{
    if t > 0 {
        lemma_covering_contains(ranges, c, (t - 1) as nat, tt);
        let before = covering(ranges, c, (t - 1) as nat);
        if in_range(ranges[t - 1], c) {
            let s = before.push((t - 1) as usize);
            assert(covering(ranges, c, t) == s);
            assert(s[before.len() as int] == (t - 1) as usize);
            if 0 <= tt <= usize::MAX && s.contains(tt as usize) {
                let w = choose|w: int| #![trigger s[w]] 0 <= w < s.len() && s[w] == tt as usize;
                if w < before.len() {
                    assert(before[w] == tt as usize);
                }
            }
            if 0 <= tt < t - 1 && in_range(ranges[tt], c) {
                let w = choose|w: int| #![trigger before[w]] 0 <= w < before.len() && before[w] == tt as usize;
                assert(s[w] == tt as usize);
            }
        }
    }
}

} // verus!
