//! 256^3 chunks of a MagicaVoxel model, and their deduplication.
use crate::voxelizer::{local_position, spec_local_position};
use crate::voxquant_core::voxelizer::VoxelStore;
use vstd::prelude::*;

verus! {

/// A voxel that a chunk can hold: built from a position inside the chunk
/// and a colour, and telling its position back.
pub trait VoxelType: Copy + Sized {
    /// The voxel built from `pos` and `color`.
    spec fn spec_from_pos_color(pos: [u8; 3], color: [u8; 4]) -> Self;

    /// The position of the voxel inside its chunk.
    spec fn spec_pos(&self) -> [u8; 3];

    fn from_pos_color(pos: [u8; 3], color: [u8; 4]) -> (r: Self)
        ensures
            r == Self::spec_from_pos_color(pos, color),
            r.spec_pos() == pos,
    ;

    fn pos(&self) -> (r: [u8; 3])
        ensures
            r == self.spec_pos(),
    ;
}

/// The order in which a chunk stores its voxels: by z, then y, then x.
pub open spec fn spec_position_key(p: [u8; 3]) -> int {
    p[2] * 65536 + p[1] * 256 + p[0]
}

/// The sort key of a position: z, y and x as the bytes of a number, most
/// significant first.
pub fn position_key(p: [u8; 3]) -> (r: u32)
    ensures
        r == spec_position_key(p),
{
    p[2] as u32 * 65536 + p[1] as u32 * 256 + p[0] as u32
}

/// Positions with the same key are the same position.
pub proof fn lemma_position_key_injective(p: [u8; 3], q: [u8; 3])
    requires
        spec_position_key(p) == spec_position_key(q),
    ensures
        p == q,
{
    assert(p[2] == q[2]) by (nonlinear_arith)
        requires
            p[2] * 65536 + p[1] * 256 + p[0] == q[2] * 65536 + q[1] * 256 + q[0],
            0 <= p[1] < 256,
            0 <= p[0] < 256,
            0 <= q[1] < 256,
            0 <= q[0] < 256,
    ;
    assert(p[1] == q[1]) by (nonlinear_arith)
        requires
            p[1] * 256 + p[0] == q[1] * 256 + q[0],
            0 <= p[0] < 256,
            0 <= q[0] < 256,
    ;
    assert(p =~= q);
}

fn voxel_key<T: VoxelType>(v: &T) -> (r: u32)
    ensures
        r == spec_position_key(v.spec_pos()),
{
    position_key(v.pos())
}

/// Whether the voxels are ordered by position key, ties allowed.
pub open spec fn sorted_by_position<T: VoxelType>(s: Seq<T>) -> bool {
    forall|i: int, j: int|
        0 <= i < j < s.len() ==> spec_position_key(#[trigger] s[i].spec_pos()) <= spec_position_key(
            #[trigger] s[j].spec_pos(),
        )
}

/// Whether the voxels are ordered by strictly increasing position key, so
/// that no two share a position.
pub open spec fn strictly_sorted_by_position<T: VoxelType>(s: Seq<T>) -> bool {
    forall|i: int, j: int|
        0 <= i < j < s.len() ==> spec_position_key(#[trigger] s[i].spec_pos()) < spec_position_key(
            #[trigger] s[j].spec_pos(),
        )
}

/// In a sequence ordered by strictly increasing position key no two
/// voxels share a position.
pub proof fn lemma_strictly_sorted_distinct<T: VoxelType>(s: Seq<T>, i: int, j: int)
    requires
        strictly_sorted_by_position(s),
        0 <= i < j < s.len(),
    ensures
        s[i].spec_pos() != s[j].spec_pos(),
{
    assert(spec_position_key(s[i].spec_pos()) < spec_position_key(s[j].spec_pos()));
}

/// Whether two voxels are at the same position.
pub open spec fn same_position<T: VoxelType>(a: T, b: T) -> bool {
    a.spec_pos() == b.spec_pos()
}

/// Whether some voxel of `s` is at the position of `v`.
pub open spec fn has_position<T: VoxelType>(s: Seq<T>, v: T) -> bool {
    exists|j: int| 0 <= j < s.len() && #[trigger] same_position(s[j], v)
}

/// Whether every position that a voxel of `from` has is also the
/// position of some voxel of `to`.
pub open spec fn covers_positions<T: VoxelType>(from: Seq<T>, to: Seq<T>) -> bool {
    forall|i: int| 0 <= i < from.len() ==> #[trigger] has_position(to, from[i])
}

/// Calls `slice::sort_unstable_by_key` with the position key. Trusted:
/// the result is a permutation of the input ordered by key; voxels with
/// equal keys may come out in any order.
#[verifier::external_body]
fn sort_by_position<T: VoxelType>(voxels: &mut Vec<T>)
    ensures
        final(voxels)@.to_multiset() == old(voxels)@.to_multiset(),
        sorted_by_position(final(voxels)@),
{
    voxels.sort_unstable_by_key(|v| voxel_key(v));
}

/// A 256^3 chunk of a MagicaVoxel model: its voxels and the position of
/// its first voxel in the scene.
pub struct Chunk<T: VoxelType> {
    pub voxels: Vec<T>,
    pub origin: [i32; 3],
}

/// The voxels of a chunk that covers the scene positions from `start` to
/// `end` (both included on each axis).
#[derive(Debug, Clone, Copy, PartialEq, Eq)]
pub struct VoxelRange {
    pub start: [i32; 3],
    pub end: [i32; 3],
}

impl<T: VoxelType> Chunk<T> {
    /// An empty chunk whose first voxel is at `origin`.
    pub fn new(origin: [i32; 3]) -> (r: Self)
        ensures
            r.voxels@ == Seq::<T>::empty(),
            r.origin == origin,
    {
        Chunk { voxels: Vec::new(), origin }
    }

    /// The scene positions that the chunk spans: from its origin to its
    /// origin plus 256 on each axis.
    pub fn range(&self) -> (r: VoxelRange)
        requires
            self.origin[0] + 256 <= i32::MAX,
            self.origin[1] + 256 <= i32::MAX,
            self.origin[2] + 256 <= i32::MAX,
        ensures
            r.start == self.origin,
            r.end == [
                (self.origin[0] + 256) as i32,
                (self.origin[1] + 256) as i32,
                (self.origin[2] + 256) as i32,
            ],
    {
        VoxelRange {
            start: self.origin,
            end: [self.origin[0] + 256, self.origin[1] + 256, self.origin[2] + 256],
        }
    }

    /// Sorts the voxels by position (z, then y, then x) and keeps one
    /// voxel per position: afterwards no two voxels share a position,
    /// every position that had a voxel still has one, and every voxel kept
    /// was there before.
    pub fn optimize(&mut self)
        ensures
            final(self).origin == old(self).origin,
            strictly_sorted_by_position(final(self).voxels@),
            forall|i: int|
                0 <= i < final(self).voxels@.len() ==> old(self).voxels@.contains(
                    #[trigger] final(self).voxels@[i],
                ),
            covers_positions(old(self).voxels@, final(self).voxels@),
    {
        let ghost initial = self.voxels@;
        let mut sorted: Vec<T> = Vec::new();
        std::mem::swap(&mut sorted, &mut self.voxels);
        sort_by_position(&mut sorted);
        let ghost s = sorted@;
        let kept = dedup_positions(sorted);
        proof {
            broadcast use vstd::seq_lib::group_to_multiset_ensures;

            assert forall|k: int| 0 <= k < kept@.len() implies initial.contains(#[trigger] kept@[k]) by {
                assert(s.contains(kept@[k]));
                assert(s.to_multiset().count(kept@[k]) > 0);
            }
            assert forall|j: int| 0 <= j < initial.len() implies #[trigger] has_position(
                kept@,
                initial[j],
            ) by {
                assert(initial.to_multiset().count(initial[j]) > 0);
                assert(s.contains(initial[j]));
                let w = choose|w: int| #![trigger s[w]] 0 <= w < s.len() && s[w] == initial[j];
                assert(has_position(kept@, s[w]));
                let k = choose|k: int| 0 <= k < kept@.len() && #[trigger] same_position(kept@[k], s[w]);
                assert(same_position(kept@[k], initial[j]));
            }
        }
        self.voxels = kept;
        proof {
            assert(initial == old(self).voxels@);
        }
    }
}

/// Keeps the first voxel of every run of voxels at the same position in
/// a sequence ordered by position key.
fn dedup_positions<T: VoxelType>(sorted: Vec<T>) -> (kept: Vec<T>)
    requires
        sorted_by_position(sorted@),
    ensures
        strictly_sorted_by_position(kept@),
        forall|k: int| 0 <= k < kept@.len() ==> sorted@.contains(#[trigger] kept@[k]),
        covers_positions(sorted@, kept@),
{
    let ghost s = sorted@;
    let n = sorted.len();
    let mut kept: Vec<T> = Vec::new();
    let mut i: usize = 0;
    while i < n
        invariant
            n == s.len(),
            sorted@ == s,
            sorted_by_position(s),
            i <= n,
            strictly_sorted_by_position(kept@),
            i == 0 ==> kept@.len() == 0,
            i > 0 ==> kept@.len() > 0 && kept@.last().spec_pos() == s[i - 1].spec_pos(),
            forall|k: int| 0 <= k < kept@.len() ==> s.contains(#[trigger] kept@[k]),
            covers_positions(s.take(i as int), kept@),
        decreases n - i,
    {
        let v = sorted[i];
        let p = v.pos();
        let first_of_run = if i == 0 {
            true
        } else {
            let q = sorted[i - 1].pos();
            p[0] != q[0] || p[1] != q[1] || p[2] != q[2]
        };
        let ghost before = kept@;
        if first_of_run {
            proof {
                lemma_push_keeps_order(before, s, i as int, p);
            }
            kept.push(v);
            proof {
                assert(kept@ == before.push(v));
                assert(s.contains(s[i as int]));
                let t = s.take(i + 1);
                assert forall|j: int| 0 <= j < t.len() implies #[trigger] has_position(kept@, t[j]) by {
                    if j == i {
                        assert(kept@[before.len() as int] == s[j]);
                        assert(same_position(kept@[before.len() as int], t[j]));
                    } else {
                        assert(t[j] == s.take(i as int)[j]);
                        assert(has_position(before, s.take(i as int)[j]));
                        let k = choose|k: int| 0 <= k < before.len() && #[trigger] same_position(before[k], s.take(i as int)[j]);
                        assert(kept@[k] == before[k]);
                        assert(same_position(kept@[k], t[j]));
                    }
                }
            }
        } else {
            proof {
                assert(p =~= s[i - 1].spec_pos());
                let last = kept@.len() - 1;
                let t = s.take(i + 1);
                assert forall|j: int| 0 <= j < t.len() implies #[trigger] has_position(kept@, t[j]) by {
                    if j == i {
                        assert(same_position(kept@[last], t[j]));
                    } else {
                        assert(t[j] == s.take(i as int)[j]);
                        assert(has_position(kept@, s.take(i as int)[j]));
                    }
                }
            }
        }
        i += 1;
    }
    proof {
        assert(s.take(n as int) =~= s);
    }
    kept
}

/// Appending the voxel that starts a new run of positions keeps the kept
/// voxels strictly ordered.
proof fn lemma_push_keeps_order<T: VoxelType>(before: Seq<T>, s: Seq<T>, i: int, p: [u8; 3])
    requires
        0 <= i < s.len(),
        sorted_by_position(s),
        strictly_sorted_by_position(before),
        p == s[i].spec_pos(),
        i == 0 ==> before.len() == 0,
        i > 0 ==> before.len() > 0 && before.last().spec_pos() == s[i - 1].spec_pos(),
        i > 0 ==> p != s[i - 1].spec_pos(),
    ensures
        strictly_sorted_by_position(before.push(s[i])),
{
    assert forall|k: int| 0 <= k < before.len() implies spec_position_key(
        #[trigger] before[k].spec_pos(),
    ) < spec_position_key(p) by {
        let q = s[i - 1].spec_pos();
        if spec_position_key(p) == spec_position_key(q) {
            lemma_position_key_injective(p, q);
        }
        assert(spec_position_key(q) <= spec_position_key(p));
        let last = before.len() - 1;
        if k < last {
            assert(spec_position_key(before[k].spec_pos()) < spec_position_key(
                before[last].spec_pos(),
            ));
        }
    }
    let t = before.push(s[i]);
    assert forall|a: int, b: int| 0 <= a < b < t.len() implies spec_position_key(
        #[trigger] t[a].spec_pos(),
    ) < spec_position_key(#[trigger] t[b].spec_pos()) by {
        assert(t[a] == before[a]);
        if b < before.len() {
            assert(t[b] == before[b]);
        } else {
            assert(t[b] == s[i]);
        }
    }
}

impl<T: VoxelType> VoxelStore for Chunk<T> {
    /// Adds a voxel at the scene position `pos`: positions outside the
    /// chunk are dropped, the others are stored relative to the chunk.
    fn add_voxel(&mut self, pos: [i32; 3], color: [u8; 4], is_emissive: bool)
        ensures
            final(self).origin == old(self).origin,
            final(self).voxels@ == match spec_local_position(pos, old(self).origin) {
                Some(local) => old(self).voxels@.push(T::spec_from_pos_color(local, color)),
                None => old(self).voxels@,
            },
    {
        if let Some(local) = local_position(pos, self.origin) {
            self.voxels.push(T::from_pos_color(local, color));
        }
    }
}

} // verus!
