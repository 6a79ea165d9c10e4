//! Facts about walks through the node graph of an octree buffer.
use crate::octree::octree_header::{spec_bit, spec_exists, spec_final};
use crate::octree::{
    hdr, is_link, link_target, links_wf, lookup, lookup_from, node_count, octant_at, reach, slot,
    lemma_octant_range,
};
use vstd::prelude::*;

verus! {

/// Coordinates that select the same octants on the levels below `level`
/// reach the same node at `level`.
pub proof fn lemma_reach_prefix(data: Seq<u32>, c1: [i32; 3], c2: [i32; 3], depth: nat, level: nat)
    requires
        forall|l: nat| l < level ==> #[trigger] octant_at(c1, depth, l) == octant_at(c2, depth, l),
    ensures
        reach(data, c1, depth, level) == reach(data, c2, depth, level),
    decreases level,
{
    if level > 0 {
        lemma_reach_prefix(data, c1, c2, depth, (level - 1) as nat);
        assert(octant_at(c1, depth, (level - 1) as nat) == octant_at(c2, depth, (level - 1) as nat));
    }
}

/// A walk that reaches some level also reaches every level above it.
pub proof fn lemma_reach_shorter(data: Seq<u32>, c: [i32; 3], depth: nat, l1: nat, l2: nat)
    requires
        l1 <= l2,
        reach(data, c, depth, l2) is Some,
    ensures
        reach(data, c, depth, l1) is Some,
    decreases l2,
{
    if l1 < l2 {
        lemma_reach_shorter(data, c, depth, l1, (l2 - 1) as nat);
    }
}

/// Every reached node lies in the buffer.
pub proof fn lemma_reach_bounds(data: Seq<u32>, c: [i32; 3], depth: nat, level: nat)
    requires
        links_wf(data, depth),
        reach(data, c, depth, level) is Some,
    ensures
        0 <= reach(data, c, depth, level)->0 < node_count(data),
    decreases level,
{
    if level > 0 {
        lemma_reach_bounds(data, c, depth, (level - 1) as nat);
        let k = reach(data, c, depth, (level - 1) as nat)->0;
        let o = octant_at(c, depth, (level - 1) as nat);
        assert(is_link(data, k, o));
    }
}

/// The root is never the target of a link, so it is only reached at
/// level 0.
pub proof fn lemma_reach_nonroot(data: Seq<u32>, c: [i32; 3], depth: nat, level: nat)
    requires
        links_wf(data, depth),
        level > 0,
        reach(data, c, depth, level) is Some,
    ensures
        reach(data, c, depth, level)->0 > 0,
{
    lemma_reach_bounds(data, c, depth, (level - 1) as nat);
    let k = reach(data, c, depth, (level - 1) as nat)->0;
    let o = octant_at(c, depth, (level - 1) as nat);
    assert(is_link(data, k, o));
}

/// Two walks that reach the same node do so at the same level and along
/// the same octants.
pub proof fn lemma_unique_path(
    data: Seq<u32>,
    c1: [i32; 3],
    a: nat,
    c2: [i32; 3],
    b: nat,
    depth: nat,
)
    requires
        links_wf(data, depth),
        reach(data, c1, depth, a) is Some,
        reach(data, c1, depth, a) == reach(data, c2, depth, b),
    ensures
        a == b,
        forall|l: nat| l < a ==> #[trigger] octant_at(c1, depth, l) == octant_at(c2, depth, l),
    decreases a + b,
{
    if a == 0 && b > 0 {
        lemma_reach_nonroot(data, c2, depth, b);
    } else if a > 0 && b == 0 {
        lemma_reach_nonroot(data, c1, depth, a);
    } else if a > 0 && b > 0 {
        let k1 = reach(data, c1, depth, (a - 1) as nat)->0;
        let o1 = octant_at(c1, depth, (a - 1) as nat);
        let k2 = reach(data, c2, depth, (b - 1) as nat)->0;
        let o2 = octant_at(c2, depth, (b - 1) as nat);
        assert(is_link(data, k1, o1));
        assert(is_link(data, k2, o2));
        assert(slot(data, k1, o1) == slot(data, k2, o2));
        lemma_unique_path(data, c1, (a - 1) as nat, c2, (b - 1) as nat, depth);
    }
}

/// The lookup of a cell continues from any node on its walk.
pub proof fn lemma_lookup_reach(
    data: Seq<u32>,
    c: [i32; 3],
    depth: nat,
    k: int,
    level: nat,
    target: nat,
)
    requires
        reach(data, c, depth, level) == Some(k),
        level <= target,
    ensures
        lookup(data, c, depth, target) == lookup_from(data, c, depth, k, level, target),
    decreases level,
{
    if level > 0 {
        let k1 = reach(data, c, depth, (level - 1) as nat)->0;
        lemma_lookup_reach(data, c, depth, k1, (level - 1) as nat, target);
    }
}

/// Entry `o` of node `q` reads the same in both buffers.
pub open spec fn entry_same(old: Seq<u32>, new: Seq<u32>, q: int, o: int) -> bool {
    &&& spec_bit(hdr(new, q), o as u32) == spec_bit(hdr(old, q), o as u32)
    &&& spec_bit(hdr(new, q), (o + 8) as u32) == spec_bit(hdr(old, q), (o + 8) as u32)
    &&& slot(new, q, o) == slot(old, q, o)
}

/// A walk that only reads entries that are unchanged finds the same.
pub proof fn lemma_frame_walk(
    old: Seq<u32>,
    new: Seq<u32>,
    c: [i32; 3],
    depth: nat,
    k: int,
    level: nat,
    target: nat,
)
    requires
        links_wf(old, depth),
        reach(old, c, depth, level) == Some(k),
        level <= target,
        forall|m: nat|
            level <= m <= target && #[trigger] reach(old, c, depth, m) is Some ==> entry_same(
                old,
                new,
                reach(old, c, depth, m)->0,
                octant_at(c, depth, m),
            ),
    ensures
        lookup_from(new, c, depth, k, level, target) == lookup_from(old, c, depth, k, level, target),
    decreases target - level,
{
    let o = octant_at(c, depth, level);
    lemma_octant_range(c, (depth - level) as u32);
    assert(entry_same(old, new, k, o));
    assert(spec_exists(hdr(new, k), o as u32) == spec_exists(hdr(old, k), o as u32));
    assert(spec_final(hdr(new, k), o as u32) == spec_final(hdr(old, k), o as u32));
    if level < target && spec_exists(hdr(old, k), o as u32) && !spec_final(hdr(old, k), o as u32) {
        lemma_reach_bounds(old, c, depth, level);
        lemma_octant_range(c, (depth - level) as u32);
        assert(is_link(old, k, o));
        assert(reach(old, c, depth, level + 1) == Some(link_target(old, k, o)));
        lemma_frame_walk(old, new, c, depth, link_target(old, k, o), level + 1, target);
    }
}

} // verus!
