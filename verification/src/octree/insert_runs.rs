//! What a run of inserts into an empty tree leaves for `collect_nodes`.
use crate::octree::bit_lemmas::{lemma_trunc_step, spec_trunc};
use crate::octree::{
    coords_aligned, distinct_cells, insert_effect, lemma_cbit_range, lists_leaves, lookup,
    morton_sorted, octant_at, same_prefix, spec_cbit, Lookup, OctreePos,
};
use vstd::prelude::*;

verus! {

/// The colour of the first insert for the cell with corner `p` among
/// `inserts` (corner and packed colour, in the order they were made).
pub open spec fn first_insert(inserts: Seq<([i32; 3], u32)>, p: [i32; 3]) -> Option<u32>
    decreases inserts.len(),
{
    if inserts.len() == 0 {
        None
    } else {
        match first_insert(inserts.drop_last(), p) {
            Some(v) => Some(v),
            None => if inserts.last().0 == p {
                Some(inserts.last().1)
            } else {
                None
            },
        }
    }
}

/// The colour of the first insert whose cell on the last level is the
/// cell of `c`.
spec fn first_hit(inserts: Seq<([i32; 3], u32)>, c: [i32; 3], depth: nat) -> Option<u32>
    decreases inserts.len(),
{
    if inserts.len() == 0 {
        None
    } else {
        match first_hit(inserts.drop_last(), c, depth) {
            Some(v) => Some(v),
            None => if same_prefix(c, inserts.last().0, depth, depth) {
                Some(inserts.last().1)
            } else {
                None
            },
        }
    }
}

/// What the cell of `c` on level `tt` holds after `inserts`, all on the
/// last level, into an empty tree.
spec fn run_lookup(inserts: Seq<([i32; 3], u32)>, c: [i32; 3], depth: nat, tt: nat) -> Lookup {
    if tt >= depth {
        match first_hit(inserts, c, depth) {
            Some(v) => Lookup::Leaf { level: depth, value: v },
            None => Lookup::Empty,
        }
    } else if exists|i: int| 0 <= i < inserts.len() && #[trigger] same_prefix(c, inserts[i].0, depth, tt) {
        Lookup::Interior
    } else {
        Lookup::Empty
    }
}

proof fn lemma_first_hit_some(inserts: Seq<([i32; 3], u32)>, c: [i32; 3], depth: nat)
    ensures
        first_hit(inserts, c, depth) is Some <==> exists|i: int|
            0 <= i < inserts.len() && #[trigger] same_prefix(c, inserts[i].0, depth, depth),
    decreases inserts.len(),
{
    if inserts.len() > 0 {
        let prev = inserts.drop_last();
        lemma_first_hit_some(prev, c, depth);
        if first_hit(inserts, c, depth) is Some {
            if first_hit(prev, c, depth) is Some {
                let i = choose|i: int| 0 <= i < prev.len() && #[trigger] same_prefix(c, prev[i].0, depth, depth);
                assert(inserts[i] == prev[i]);
            } else {
                assert(same_prefix(c, inserts[inserts.len() - 1].0, depth, depth));
            }
        }
        if exists|i: int| 0 <= i < inserts.len() && #[trigger] same_prefix(c, inserts[i].0, depth, depth) {
            let i = choose|i: int| 0 <= i < inserts.len() && #[trigger] same_prefix(c, inserts[i].0, depth, depth);
            if i < inserts.len() - 1 {
                assert(prev[i] == inserts[i]);
            }
        }
    }
}

proof fn lemma_prefix_trans(a: [i32; 3], b: [i32; 3], c: [i32; 3], depth: nat, level: nat)
    requires
        same_prefix(a, b, depth, level),
        same_prefix(b, c, depth, level),
    ensures
        same_prefix(a, c, depth, level),
        same_prefix(c, a, depth, level),
{
    assert forall|l: nat| l <= level implies #[trigger] octant_at(a, depth, l) == octant_at(c, depth, l) by {
        assert(octant_at(a, depth, l) == octant_at(b, depth, l));
        assert(octant_at(b, depth, l) == octant_at(c, depth, l));
    }
    assert forall|l: nat| l <= level implies #[trigger] octant_at(c, depth, l) == octant_at(a, depth, l) by {
        assert(octant_at(a, depth, l) == octant_at(b, depth, l));
        assert(octant_at(b, depth, l) == octant_at(c, depth, l));
    }
}

proof fn lemma_prefix_lower(a: [i32; 3], b: [i32; 3], depth: nat, hi: nat, lo: nat)
    requires
        lo <= hi,
        same_prefix(a, b, depth, hi),
    ensures
        same_prefix(a, b, depth, lo),
{
    assert forall|l: nat| l <= lo implies #[trigger] octant_at(a, depth, l) == octant_at(b, depth, l) by {
        assert(octant_at(a, depth, l) == octant_at(b, depth, l));
    }
}

/// Two non-negative coordinates below `2^(depth + 1)` with the same bits
/// from `s` up agree once their bits below `s` are cleared.
proof fn lemma_trunc_agree(x: i32, y: i32, depth: nat, s: nat)
    requires
        depth <= 30,
        s <= depth + 1,
        0 <= x,
        0 <= y,
        x >> (depth + 1) as u32 == 0i32,
        y >> (depth + 1) as u32 == 0i32,
        forall|b: nat| s <= b <= depth ==> #[trigger] spec_cbit(x, b as u32) == spec_cbit(y, b as u32),
    ensures
        spec_trunc(x, s as u32) == spec_trunc(y, s as u32),
    decreases depth + 1 - s,
{
    if s == depth + 1 {
        let su = s as u32;
        assert((x >> su) << su == 0i32) by (bit_vector)
            requires
                x >> su == 0i32,
        ;
        assert((y >> su) << su == 0i32) by (bit_vector)
            requires
                y >> su == 0i32,
        ;
    } else {
        lemma_trunc_agree(x, y, depth, s + 1);
        lemma_trunc_step(x, s as u32);
        lemma_trunc_step(y, s as u32);
        assert(spec_cbit(x, s as u32) == spec_cbit(y, s as u32));
        assert((s + 1) as u32 == (s as u32 + 1) as u32);
    }
}

/// Corners on the last level that select the same octants on every
/// level are the same corner.
proof fn lemma_aligned_prefix_eq(a: [i32; 3], b: [i32; 3], depth: nat)
    requires
        depth <= 30,
        coords_aligned(a, depth, depth),
        coords_aligned(b, depth, depth),
        same_prefix(a, b, depth, depth),
    ensures
        a == b,
{
    assert forall|k: int| 0 <= k < 3 implies a[k] == b[k] by {
        assert forall|s: nat| 0 <= s <= depth implies #[trigger] spec_cbit(a[k], s as u32) == spec_cbit(b[k], s as u32) by {
            let l = (depth - s) as nat;
            assert(octant_at(a, depth, l) == octant_at(b, depth, l));
            assert((depth - l) as u32 == s as u32);
            lemma_cbit_range(a[0], s as u32);
            lemma_cbit_range(a[1], s as u32);
            lemma_cbit_range(a[2], s as u32);
            lemma_cbit_range(b[0], s as u32);
            lemma_cbit_range(b[1], s as u32);
            lemma_cbit_range(b[2], s as u32);
        }
        lemma_trunc_agree(a[k], b[k], depth, 0);
        assert((depth - depth) as u32 == 0u32);
    }
    assert(a =~= b);
}

/// For corners on the last level, the first insert for the same cell is
/// the first insert for the same corner.
proof fn lemma_first_hit_insert(inserts: Seq<([i32; 3], u32)>, c: [i32; 3], depth: nat)
    requires
        depth <= 30,
        coords_aligned(c, depth, depth),
        forall|i: int| 0 <= i < inserts.len() ==> coords_aligned(#[trigger] inserts[i].0, depth, depth),
    ensures
        first_hit(inserts, c, depth) == first_insert(inserts, c),
    decreases inserts.len(),
{
    if inserts.len() > 0 {
        let prev = inserts.drop_last();
        assert forall|i: int| 0 <= i < prev.len() implies coords_aligned(#[trigger] prev[i].0, depth, depth) by {
            assert(prev[i] == inserts[i]);
        }
        lemma_first_hit_insert(prev, c, depth);
        let last = inserts[inserts.len() - 1].0;
        assert(coords_aligned(last, depth, depth));
        if same_prefix(c, last, depth, depth) {
            lemma_aligned_prefix_eq(c, last, depth);
        }
    }
}

/// The cells after `k` of the inserts are as `run_lookup` says.
proof fn lemma_run_lookup(
    datas: Seq<Seq<u32>>,
    inserts: Seq<([i32; 3], u32)>,
    depth: nat,
    k: nat,
)
    requires
        k <= inserts.len(),
        datas.len() == inserts.len() + 1,
        forall|c: [i32; 3], t: nat| #[trigger] lookup(datas[0], c, depth, t) == Lookup::Empty,
        forall|i: int|
            #![trigger inserts[i]]
            0 <= i < inserts.len() ==> insert_effect(
                datas[i],
                datas[i + 1],
                inserts[i].0,
                depth,
                depth,
                inserts[i].1,
            ),
    ensures
        forall|c: [i32; 3], tt: nat|
            tt <= depth ==> #[trigger] lookup(datas[k as int], c, depth, tt) == run_lookup(
                inserts.take(k as int),
                c,
                depth,
                tt,
            ),
    decreases k,
{
    if k == 0 {
        assert forall|c: [i32; 3], tt: nat| tt <= depth implies #[trigger] lookup(datas[0], c, depth, tt) == run_lookup(
            inserts.take(0),
            c,
            depth,
            tt,
        ) by {
            assert(lookup(datas[0], c, depth, tt) == Lookup::Empty);
        }
    } else {
        lemma_run_lookup(datas, inserts, depth, (k - 1) as nat);
        let prev = inserts.take(k - 1);
        let cur = inserts.take(k as int);
        assert(cur.drop_last() =~= prev);
        let p = inserts[k - 1].0;
        let v = inserts[k - 1].1;
        let old = datas[k - 1];
        let new = datas[k as int];
        assert(insert_effect(old, new, p, depth, depth, v));
        assert(cur.last() == inserts[k - 1]);
        assert(lookup(old, p, depth, depth) == run_lookup(prev, p, depth, depth));
        lemma_first_hit_some(prev, p, depth);
        assert forall|c: [i32; 3], tt: nat| tt <= depth implies #[trigger] lookup(new, c, depth, tt) == run_lookup(
            cur,
            c,
            depth,
            tt,
        ) by {
            assert(lookup(old, c, depth, tt) == run_lookup(prev, c, depth, tt));
            lemma_first_hit_some(prev, c, depth);
            if first_hit(prev, p, depth) is None {
                if tt == depth {
                    if same_prefix(c, p, depth, depth) {
                        if first_hit(prev, c, depth) is Some {
                            let i = choose|i: int| 0 <= i < prev.len() && #[trigger] same_prefix(c, prev[i].0, depth, depth);
                            lemma_prefix_trans(c, p, c, depth, depth);
                            lemma_prefix_trans(p, c, prev[i].0, depth, depth);
                            assert(same_prefix(p, prev[i].0, depth, depth));
                        }
                    }
                } else {
                    if same_prefix(c, p, depth, tt) {
                        assert(same_prefix(c, cur[k - 1].0, depth, tt));
                    } else {
                        if exists|i: int| 0 <= i < cur.len() && #[trigger] same_prefix(c, cur[i].0, depth, tt) {
                            let i = choose|i: int| 0 <= i < cur.len() && #[trigger] same_prefix(c, cur[i].0, depth, tt);
                            assert(i < k - 1);
                            assert(cur[i] == prev[i]);
                        }
                        if exists|i: int| 0 <= i < prev.len() && #[trigger] same_prefix(c, prev[i].0, depth, tt) {
                            let i = choose|i: int| 0 <= i < prev.len() && #[trigger] same_prefix(c, prev[i].0, depth, tt);
                            assert(cur[i] == prev[i]);
                        }
                    }
                }
            } else {
                let i0 = choose|i: int| 0 <= i < prev.len() && #[trigger] same_prefix(p, prev[i].0, depth, depth);
                assert(new == old);
                if tt == depth {
                    if first_hit(prev, c, depth) is None && same_prefix(c, p, depth, depth) {
                        lemma_prefix_trans(c, p, prev[i0].0, depth, depth);
                        assert(same_prefix(c, prev[i0].0, depth, depth));
                    }
                } else {
                    if exists|i: int| 0 <= i < cur.len() && #[trigger] same_prefix(c, cur[i].0, depth, tt) {
                        let i = choose|i: int| 0 <= i < cur.len() && #[trigger] same_prefix(c, cur[i].0, depth, tt);
                        if i == k - 1 {
                            lemma_prefix_lower(p, prev[i0].0, depth, depth, tt);
                            lemma_prefix_trans(c, p, prev[i0].0, depth, tt);
                            assert(same_prefix(c, prev[i0].0, depth, tt));
                        } else {
                            assert(cur[i] == prev[i]);
                        }
                    }
                    if exists|i: int| 0 <= i < prev.len() && #[trigger] same_prefix(c, prev[i].0, depth, tt) {
                        let i = choose|i: int| 0 <= i < prev.len() && #[trigger] same_prefix(c, prev[i].0, depth, tt);
                        assert(cur[i] == prev[i]);
                    }
                }
            }
        }
    }
}

/// Read-back of a run of inserts: when every cell of a tree of depth
/// `depth` starts out empty (as `Octree::new` makes it), the inserts
/// `inserts` (corner and packed colour) are made one after another on
/// the last level, giving the buffers `datas`, and `r` lists the leaves
/// of the last buffer (as `Octree::collect_nodes` does), then `r` holds
/// exactly one entry per distinct inserted corner, on the last level,
/// with the colour of the first insert for that corner, in Morton order.
pub proof fn lemma_inserts_then_collect(
    datas: Seq<Seq<u32>>,
    inserts: Seq<([i32; 3], u32)>,
    depth: u32,
    r: Seq<(OctreePos, u32)>,
)
    requires
        depth <= 30,
        datas.len() == inserts.len() + 1,
        forall|c: [i32; 3], t: nat| #[trigger] lookup(datas[0], c, depth as nat, t) == Lookup::Empty,
        forall|i: int|
            0 <= i < inserts.len() ==> coords_aligned(#[trigger] inserts[i].0, depth as nat, depth as nat),
        forall|i: int|
            #![trigger inserts[i]]
            0 <= i < inserts.len() ==> insert_effect(
                datas[i],
                datas[i + 1],
                inserts[i].0,
                depth as nat,
                depth as nat,
                inserts[i].1,
            ),
        lists_leaves(datas[inserts.len() as int], depth as nat, r),
    ensures
        forall|j: int|
            0 <= j < r.len() ==> (#[trigger] r[j]).0.depth == depth && first_insert(inserts, r[j].0.coords)
                == Some(r[j].1),
        forall|i: int|
            #![trigger inserts[i]]
            0 <= i < inserts.len() ==> exists|j: int|
                0 <= j < r.len() && #[trigger] r[j] == ((OctreePos { coords: inserts[i].0, depth: depth }), first_insert(
                    inserts,
                    inserts[i].0,
                )->0),
        morton_sorted(r, 0, r.len() as int, depth as nat),
        distinct_cells(r),
{
    let d = depth as nat;
    let n = inserts.len();
    let data = datas[n as int];
    lemma_run_lookup(datas, inserts, d, n);
    assert(inserts.take(n as int) =~= inserts);
    assert forall|j: int| 0 <= j < r.len() implies (#[trigger] r[j]).0.depth == depth && first_insert(inserts, r[j].0.coords) == Some(r[j].1) by {
        let pos = r[j].0;
        assert(lookup(data, pos.coords, d, pos.depth as nat) == run_lookup(inserts, pos.coords, d, pos.depth as nat));
        assert(pos.depth as nat == d);
        lemma_first_hit_insert(inserts, pos.coords, d);
    }
    assert forall|i: int|
        #![trigger inserts[i]]
        0 <= i < n implies exists|j: int|
            0 <= j < r.len() && #[trigger] r[j] == ((OctreePos { coords: inserts[i].0, depth: depth }), first_insert(
                inserts,
                inserts[i].0,
            )->0) by {
        let p = inserts[i].0;
        let pos = OctreePos { coords: p, depth: depth };
        assert(same_prefix(p, inserts[i].0, d, d));
        lemma_first_hit_some(inserts, p, d);
        lemma_first_hit_insert(inserts, p, d);
        let w = first_insert(inserts, p)->0;
        assert(lookup(data, p, d, d) == run_lookup(inserts, p, d, d));
        assert(crate::octree::is_leaf_entry(data, d, pos, w));
    }
}

} // verus!
