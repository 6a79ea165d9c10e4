//! The shape of the buffer after an insertion, and what it means for
//! every walk through it.
use crate::octree::octree_header::{spec_bit, spec_exists, spec_final};
use crate::octree::walk_lemmas::{
    entry_same, lemma_frame_walk, lemma_lookup_reach, lemma_reach_bounds, lemma_reach_prefix,
    lemma_reach_shorter, lemma_unique_path,
};
use crate::octree::{
    hdr, is_link, link_target, links_wf, lookup, lookup_from, node_count, octant_at, reach, slot,
    lemma_octant_range, same_prefix, Lookup,
};
use vstd::prelude::*;

verus! {

/// `new` is `old` after inserting `v` for the cell of `coords` at level
/// `t`, where the walk left the existing tree at node `p` on level `j`:
/// octant `o_j` of `p` now exists, and `t - j` fresh nodes were appended,
/// one per level below `j`, each with exactly one existing octant that
/// leads on to the next; the last existing octant is final and holds `v`.
pub open spec fn insert_shape(
    old: Seq<u32>,
    new: Seq<u32>,
    p: int,
    coords: [i32; 3],
    depth: nat,
    j: nat,
    t: nat,
    v: u32,
) -> bool {
    let n0 = node_count(old);
    let kk = t - j;
    let oj = octant_at(coords, depth, j);
    &&& new.len() == old.len() + 9 * kk
    &&& forall|x: int| 0 <= x < old.len() && x / 9 != p ==> #[trigger] new[x] == old[x]
    &&& forall|i: int| 0 <= i < 8 && i != oj ==> #[trigger] slot(new, p, i) == slot(old, p, i)
    &&& forall|b: u32|
        b < 16 ==> #[trigger] spec_bit(hdr(new, p), b) == (spec_bit(hdr(old, p), b) || b == oj
            || (kk == 0 && b == oj + 8))
    &&& slot(new, p, oj) == (if kk == 0 {
        v
    } else {
        (9 * n0) as u32
    })
    &&& forall|m: int, b: u32|
        0 <= m < kk && b < 16 ==> #[trigger] spec_bit(hdr(new, n0 + m), b) == (b == octant_at(
            coords,
            depth,
            (j + 1 + m) as nat,
        ) || (m == kk - 1 && b == octant_at(coords, depth, (j + 1 + m) as nat) + 8))
    &&& forall|m: int|
        0 <= m < kk ==> #[trigger] slot(new, n0 + m, octant_at(coords, depth, (j + 1 + m) as nat))
            == (if m == kk - 1 {
            v
        } else {
            (9 * (n0 + m + 1)) as u32
        })
}

/// The situation in which an insertion happens: the walk for `coords`
/// reaches node `p` on level `j` and finds octant `o_j` absent there.
pub open spec fn insert_pre(
    old: Seq<u32>,
    new: Seq<u32>,
    p: int,
    coords: [i32; 3],
    depth: nat,
    j: nat,
    t: nat,
    v: u32,
) -> bool {
    &&& links_wf(old, depth)
    &&& depth < 32
    &&& j <= t <= depth
    &&& reach(old, coords, depth, j) == Some(p)
    &&& !spec_exists(hdr(old, p), octant_at(coords, depth, j) as u32)
    &&& new.len() <= u32::MAX
    &&& insert_shape(old, new, p, coords, depth, j, t, v)
}

proof fn lemma_octants(coords: [i32; 3], depth: nat)
    ensures
        forall|l: nat| l <= depth ==> 0 <= #[trigger] octant_at(coords, depth, l) < 8,
{
    assert forall|l: nat| l <= depth implies 0 <= #[trigger] octant_at(coords, depth, l) < 8 by {
        lemma_octant_range(coords, (depth - l) as u32);
    }
}

/// Entry `o` of an old node other than the octant written by the
/// insertion reads the same as before.
proof fn lemma_old_entry(
    old: Seq<u32>,
    new: Seq<u32>,
    p: int,
    coords: [i32; 3],
    depth: nat,
    j: nat,
    t: nat,
    v: u32,
    q: int,
    o: int,
)
    requires
        insert_pre(old, new, p, coords, depth, j, t, v),
        0 <= q < node_count(old),
        0 <= o < 8,
        q != p || o != octant_at(coords, depth, j),
    ensures
        entry_same(old, new, q, o),
        spec_exists(hdr(new, q), o as u32) == spec_exists(hdr(old, q), o as u32),
        spec_final(hdr(new, q), o as u32) == spec_final(hdr(old, q), o as u32),
        is_link(new, q, o) == is_link(old, q, o),
{
    lemma_octants(coords, depth);
    if q != p {
        assert(new[9 * q] == old[9 * q]);
        assert(new[9 * q + 1 + o] == old[9 * q + 1 + o]);
    } else {
        assert(spec_bit(hdr(new, p), o as u32) == spec_bit(hdr(old, p), o as u32));
        assert(spec_bit(hdr(new, p), (o + 8) as u32) == spec_bit(hdr(old, p), (o + 8) as u32));
    }
}

/// The links of the new buffer: the old ones, the one from `p` to the
/// first fresh node, and the chain through the fresh nodes.
proof fn lemma_link_new(
    old: Seq<u32>,
    new: Seq<u32>,
    p: int,
    coords: [i32; 3],
    depth: nat,
    j: nat,
    t: nat,
    v: u32,
    k: int,
    i: int,
)
    requires
        insert_pre(old, new, p, coords, depth, j, t, v),
        is_link(new, k, i),
    ensures
        ({
            let n0 = node_count(old);
            let kk = t - j;
            ||| (k < n0 && !(k == p && i == octant_at(coords, depth, j)) && is_link(old, k, i)
                && slot(new, k, i) == slot(old, k, i))
            ||| (k == p && i == octant_at(coords, depth, j) && kk >= 1 && slot(new, k, i) == 9
                * n0)
            ||| (k >= n0 && k - n0 < kk - 1 && i == octant_at(coords, depth, (j + 1 + k - n0) as nat)
                && slot(new, k, i) == 9 * (k + 1))
        }),
{
    lemma_octants(coords, depth);
    let n0 = node_count(old);
    let kk = t - j;
    let oj = octant_at(coords, depth, j);
    lemma_reach_bounds(old, coords, depth, j);
    if k < n0 {
        if k == p && i == oj {
            assert(!spec_final(hdr(old, p), oj as u32));
            assert(spec_bit(hdr(new, p), (oj + 8) as u32) == (spec_bit(hdr(old, p), (oj + 8) as u32)
                || kk == 0));
        } else {
            lemma_old_entry(old, new, p, coords, depth, j, t, v, k, i);
        }
    } else {
        let m = k - n0;
        let om = octant_at(coords, depth, (j + 1 + m) as nat);
        assert(spec_bit(hdr(new, n0 + m), i as u32) == (i == om || (m == kk - 1 && i == om + 8)));
        assert(spec_bit(hdr(new, n0 + m), (i + 8) as u32) == ((i + 8) == om || (m == kk - 1 && i
            + 8 == om + 8)));
        assert(i == om);
        assert(m != kk - 1);
    }
}

/// Where a walk through the new buffer can go: old nodes it reaches as
/// before, fresh node `m` only on level `j + 1 + m` and only along the
/// octants of `coords`.
proof fn lemma_reach_new(
    old: Seq<u32>,
    new: Seq<u32>,
    p: int,
    coords: [i32; 3],
    depth: nat,
    j: nat,
    t: nat,
    v: u32,
    c: [i32; 3],
    l: nat,
)
    requires
        insert_pre(old, new, p, coords, depth, j, t, v),
        reach(new, c, depth, l) is Some,
    ensures
        ({
            let q = reach(new, c, depth, l)->0;
            let n0 = node_count(old);
            if q < n0 {
                reach(old, c, depth, l) == Some(q)
            } else {
                &&& q - n0 < t - j
                &&& l == j + 1 + (q - n0)
                &&& forall|l2: nat| l2 < l ==> #[trigger] octant_at(c, depth, l2) == octant_at(
                    coords,
                    depth,
                    l2,
                )
            }
        }),
    decreases l,
{
    let n0 = node_count(old);
    if l > 0 {
        lemma_reach_new(old, new, p, coords, depth, j, t, v, c, (l - 1) as nat);
        let q1 = reach(new, c, depth, (l - 1) as nat)->0;
        let o = octant_at(c, depth, (l - 1) as nat);
        assert(is_link(new, q1, o));
        lemma_link_new(old, new, p, coords, depth, j, t, v, q1, o);
        let oj = octant_at(coords, depth, j);
        if q1 < n0 {
            if q1 == p && o == oj {
                lemma_unique_path(old, c, (l - 1) as nat, coords, j, depth);
            } else {
                lemma_reach_bounds(old, c, depth, (l - 1) as nat);
                assert(link_target(new, q1, o) == link_target(old, q1, o));
            }
        }
    }
}

/// The new buffer still holds a well-formed tree.
pub proof fn lemma_insert_wf(
    old: Seq<u32>,
    new: Seq<u32>,
    p: int,
    coords: [i32; 3],
    depth: nat,
    j: nat,
    t: nat,
    v: u32,
)
    requires
        insert_pre(old, new, p, coords, depth, j, t, v),
    ensures
        links_wf(new, depth),
{
    let n0 = node_count(old);
    let kk = t - j;
    let oj = octant_at(coords, depth, j);
    lemma_octants(coords, depth);
    lemma_reach_bounds(old, coords, depth, j);
    assert(node_count(new) == n0 + kk);
    assert forall|k: int, i: int| #[trigger]
        is_link(new, k, i) implies slot(new, k, i) % 9 == 0 && k < link_target(new, k, i)
        < node_count(new) by {
        lemma_link_new(old, new, p, coords, depth, j, t, v, k, i);
    }
    assert forall|k1: int, i1: int, k2: int, i2: int|
        #[trigger] is_link(new, k1, i1) && #[trigger] is_link(new, k2, i2) && slot(new, k1, i1)
            == slot(new, k2, i2) implies k1 == k2 && i1 == i2 by {
        lemma_link_new(old, new, p, coords, depth, j, t, v, k1, i1);
        lemma_link_new(old, new, p, coords, depth, j, t, v, k2, i2);
    }
    assert forall|k: int, i: int|
        0 <= k < node_count(new) && 0 <= i < 8 && #[trigger] spec_final(hdr(new, k), i as u32)
            implies spec_exists(hdr(new, k), i as u32) by {
        if k < n0 {
            if k == p && i == oj {
            } else {
                lemma_old_entry(old, new, p, coords, depth, j, t, v, k, i);
            }
        } else {
            let m = k - n0;
            let om = octant_at(coords, depth, (j + 1 + m) as nat);
            assert(spec_bit(hdr(new, n0 + m), (i + 8) as u32) == ((i + 8) == om || (m == kk - 1
                && i + 8 == om + 8)));
            assert(spec_bit(hdr(new, n0 + m), i as u32) == (i == om || (m == kk - 1 && i == om
                + 8)));
        }
    }
    assert forall|c: [i32; 3], l: nat, i: int|
        #[trigger] reach(new, c, depth, l) is Some && #[trigger] is_link(
            new,
            reach(new, c, depth, l)->0,
            i,
        ) implies l < depth by {
        let q = reach(new, c, depth, l)->0;
        lemma_reach_new(old, new, p, coords, depth, j, t, v, c, l);
        lemma_link_new(old, new, p, coords, depth, j, t, v, q, i);
        if q < n0 {
            if q == p && i == oj {
                lemma_unique_path(old, c, l, coords, j, depth);
            } else {
                assert(is_link(old, reach(old, c, depth, l)->0, i));
            }
        }
    }
}


/// What the tree holds for the cell of `c` at level `tt` after `v` was
/// inserted for the cell of `coords` at level `t`: the cells inside the
/// new leaf are covered by it, the cells that contain it are interior,
/// and every other cell holds what it held before.
pub open spec fn lookup_after_insert(
    old: Seq<u32>,
    coords: [i32; 3],
    depth: nat,
    t: nat,
    v: u32,
    c: [i32; 3],
    tt: nat,
) -> Lookup {
    let low = if tt < t {
        tt
    } else {
        t
    };
    if same_prefix(c, coords, depth, low) {
        if tt >= t {
            Lookup::Leaf { level: t, value: v }
        } else {
            Lookup::Interior
        }
    } else {
        lookup(old, c, depth, tt)
    }
}

proof fn lemma_chain_walk(
    old: Seq<u32>,
    new: Seq<u32>,
    p: int,
    coords: [i32; 3],
    depth: nat,
    j: nat,
    t: nat,
    v: u32,
    c: [i32; 3],
    tt: nat,
    m: int,
)
    requires
        insert_pre(old, new, p, coords, depth, j, t, v),
        0 <= m < t - j,
        j + 1 + m <= tt <= depth,
        forall|l: nat| l < j + 1 + m ==> #[trigger] octant_at(c, depth, l) == octant_at(
            coords,
            depth,
            l,
        ),
    ensures
        lookup_from(new, c, depth, node_count(old) + m, (j + 1 + m) as nat, tt) == (if same_prefix(
            c,
            coords,
            depth,
            if tt < t {
                tt
            } else {
                t
            },
        ) {
            if tt >= t {
                Lookup::Leaf { level: t, value: v }
            } else {
                Lookup::Interior
            }
        } else {
            Lookup::Empty
        }),
    decreases t - j - m,
{
    lemma_octants(coords, depth);
    lemma_octants(c, depth);
    let n0 = node_count(old);
    let kk = t - j;
    let l0 = (j + 1 + m) as nat;
    let oc = octant_at(c, depth, l0);
    let om = octant_at(coords, depth, l0);
    let low = if tt < t {
        tt
    } else {
        t
    };
    assert(spec_bit(hdr(new, n0 + m), oc as u32) == (oc == om || (m == kk - 1 && oc == om + 8)));
    assert(spec_bit(hdr(new, n0 + m), (oc + 8) as u32) == ((oc + 8) == om || (m == kk - 1 && oc
        + 8 == om + 8)));
    if oc != om {
        assert(!same_prefix(c, coords, depth, low)) by {
            assert(octant_at(c, depth, l0) != octant_at(coords, depth, l0));
        }
    } else {
        if m == kk - 1 {
            assert(same_prefix(c, coords, depth, low)) by {
                assert forall|l: nat| l <= low implies #[trigger] octant_at(c, depth, l)
                    == octant_at(coords, depth, l) by {
                    if l < l0 {
                    }
                }
            }
        } else if l0 >= tt {
            assert(same_prefix(c, coords, depth, low)) by {
                assert forall|l: nat| l <= low implies #[trigger] octant_at(c, depth, l)
                    == octant_at(coords, depth, l) by {
                    if l < l0 {
                    }
                }
            }
        } else {
            assert(link_target(new, n0 + m, oc) == n0 + m + 1);
            lemma_chain_walk(old, new, p, coords, depth, j, t, v, c, tt, m + 1);
        }
    }
}

/// Walks along `coords` above level `j` are not disturbed by the
/// insertion.
proof fn lemma_reach_old_path(
    old: Seq<u32>,
    new: Seq<u32>,
    p: int,
    coords: [i32; 3],
    depth: nat,
    j: nat,
    t: nat,
    v: u32,
    l: nat,
)
    requires
        insert_pre(old, new, p, coords, depth, j, t, v),
        l <= j,
    ensures
        reach(new, coords, depth, l) == reach(old, coords, depth, l),
    decreases l,
{
    if l > 0 {
        lemma_reach_old_path(old, new, p, coords, depth, j, t, v, (l - 1) as nat);
        lemma_reach_shorter(old, coords, depth, (l - 1) as nat, j);
        lemma_reach_bounds(old, coords, depth, (l - 1) as nat);
        let q = reach(old, coords, depth, (l - 1) as nat)->0;
        let o = octant_at(coords, depth, (l - 1) as nat);
        lemma_octant_range(coords, (depth - (l - 1)) as u32);
        if q == p {
            lemma_unique_path(old, coords, (l - 1) as nat, coords, j, depth);
        }
        lemma_old_entry(old, new, p, coords, depth, j, t, v, q, o);
    }
}

/// What every cell holds after the insertion.
pub proof fn lemma_insert_lookup(
    old: Seq<u32>,
    new: Seq<u32>,
    p: int,
    coords: [i32; 3],
    depth: nat,
    j: nat,
    t: nat,
    v: u32,
    c: [i32; 3],
    tt: nat,
)
    requires
        insert_pre(old, new, p, coords, depth, j, t, v),
        tt <= depth,
    ensures
        lookup(new, c, depth, tt) == lookup_after_insert(old, coords, depth, t, v, c, tt),
{
    lemma_octants(coords, depth);
    lemma_octants(c, depth);
    let n0 = node_count(old);
    let kk = t - j;
    let oj = octant_at(coords, depth, j);
    let low = if tt < t {
        tt
    } else {
        t
    };
    lemma_reach_bounds(old, coords, depth, j);
    let b = j <= tt && forall|l: nat| l < j ==> #[trigger] octant_at(c, depth, l) == octant_at(
        coords,
        depth,
        l,
    );
    if !b {
        assert forall|m: nat| 0 <= m <= tt && #[trigger] reach(old, c, depth, m) is Some implies entry_same(
            old,
            new,
            reach(old, c, depth, m)->0,
            octant_at(c, depth, m),
        ) by {
            let q = reach(old, c, depth, m)->0;
            lemma_reach_bounds(old, c, depth, m);
            if q == p && octant_at(c, depth, m) == oj {
                lemma_unique_path(old, c, m, coords, j, depth);
            } else {
                lemma_old_entry(old, new, p, coords, depth, j, t, v, q, octant_at(c, depth, m));
            }
        }
        lemma_frame_walk(old, new, c, depth, 0, 0, tt);
        if same_prefix(c, coords, depth, low) {
            assert(tt < j) by {
                if j <= tt {
                    assert forall|l: nat| l < j implies #[trigger] octant_at(c, depth, l)
                        == octant_at(coords, depth, l) by {
                        assert(l <= low);
                    }
                }
            }
            lemma_reach_shorter(old, coords, depth, tt, j);
            lemma_reach_shorter(old, coords, depth, tt + 1, j);
            lemma_reach_prefix(old, c, coords, depth, tt);
            let q = reach(old, coords, depth, tt)->0;
            assert(octant_at(c, depth, tt) == octant_at(coords, depth, tt));
            assert(is_link(old, q, octant_at(coords, depth, tt)));
            lemma_lookup_reach(old, c, depth, q, tt, tt);
        }
    } else {
        lemma_reach_prefix(old, c, coords, depth, j);
        lemma_reach_old_path(old, new, p, coords, depth, j, t, v, j);
        lemma_reach_prefix(new, c, coords, depth, j);
        lemma_lookup_reach(old, c, depth, p, j, tt);
        lemma_lookup_reach(new, c, depth, p, j, tt);
        let oc = octant_at(c, depth, j);
        if oc != oj {
            assert(!same_prefix(c, coords, depth, low)) by {
                assert(octant_at(c, depth, j) != octant_at(coords, depth, j));
            }
            assert forall|m: nat| j <= m <= tt && #[trigger] reach(old, c, depth, m) is Some implies entry_same(
                old,
                new,
                reach(old, c, depth, m)->0,
                octant_at(c, depth, m),
            ) by {
                let q = reach(old, c, depth, m)->0;
                lemma_reach_bounds(old, c, depth, m);
                if q == p && octant_at(c, depth, m) == oj {
                    lemma_unique_path(old, c, m, coords, j, depth);
                } else {
                    lemma_old_entry(old, new, p, coords, depth, j, t, v, q, octant_at(c, depth, m));
                }
            }
            lemma_frame_walk(old, new, c, depth, p, j, tt);
        } else {
            assert(spec_bit(hdr(new, p), oj as u32));
            assert(spec_bit(hdr(new, p), (oj + 8) as u32) == (spec_bit(hdr(old, p), (oj + 8) as u32)
                || kk == 0));
            assert(!spec_final(hdr(old, p), oj as u32));
            if kk == 0 || j >= tt {
                assert(same_prefix(c, coords, depth, low)) by {
                    assert forall|l: nat| l <= low implies #[trigger] octant_at(c, depth, l)
                        == octant_at(coords, depth, l) by {
                        if l < j {
                        }
                    }
                }
            } else {
                assert(link_target(new, p, oj) == n0);
                lemma_chain_walk(old, new, p, coords, depth, j, t, v, c, tt, 0);
            }
        }
    }
}

} // verus!
