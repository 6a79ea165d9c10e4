//! A sparse octree of colours stored in a flat `u32` buffer.
//!
//! Every node takes nine words: a header (see [`octree_header`]) and one
//! slot per octant. The slot of an existing octant holds either the offset
//! of the child node or, when the octant is final, a packed colour.
//! Level `l` of the tree (the root is level 0) selects the octant by bit
//! `depth - l` of each coordinate.
pub mod octree_header;
mod walk_lemmas;
mod insert_lemmas;
mod bit_lemmas;
pub mod insert_runs;

use crate::octree::bit_lemmas::{lemma_add_bit, lemma_trunc_bit, lemma_trunc_step, spec_trunc};
use crate::octree::insert_lemmas::{
    insert_pre, insert_shape, lemma_insert_lookup, lemma_insert_wf, lookup_after_insert,
};
use crate::octree::octree_header::{
    from_color, get_exists, get_final, set_exists, set_final, set_header_tag, spec_bit,
    spec_exists, spec_final, spec_from_color,
};
use crate::octree::walk_lemmas::{lemma_lookup_reach, lemma_reach_bounds, lemma_reach_prefix};
use vstd::arithmetic::power2::pow2;
use vstd::prelude::*;

verus! {

/// A position in the octree: integer coordinates and the level of the
/// cell that they address.
#[derive(Debug, Clone, Copy, PartialEq, Eq, Hash)]
pub struct OctreePos {
    pub coords: [i32; 3],
    pub depth: u32,
}

/// A sparse octree of colours in a flat buffer of nine-word nodes; the
/// root node is at offset 0.
#[derive(Debug, Clone)]
pub struct Octree {
    pub data: Vec<u32>,
    pub depth: u32,
}

/// The value that fills the slots of a fresh node.
pub const EMPTY_SLOT: u32 = 69420420;

// ---------------------------------------------------------------------
// Octants
// ---------------------------------------------------------------------

/// Bit `s` of `x` (0 or 1).
pub open spec fn spec_cbit(x: i32, s: u32) -> int {
    ((x >> s) & 1i32) as int
}

/// The octant selected by bit `s` of the three coordinates: x in bit 0,
/// y in bit 1, z in bit 2.
pub open spec fn spec_octant(coords: [i32; 3], s: u32) -> int {
    spec_cbit(coords[0], s) + 2 * spec_cbit(coords[1], s) + 4 * spec_cbit(coords[2], s)
}

/// The octant that `coords` selects at level `level` of a tree of depth
/// `depth`.
pub open spec fn octant_at(coords: [i32; 3], depth: nat, level: nat) -> int {
    spec_octant(coords, (depth - level) as u32)
}

pub proof fn lemma_cbit_range(x: i32, s: u32)
    ensures
        0 <= spec_cbit(x, s) <= 1,
{
    let b = (x >> s) & 1i32;
    assert(b == 0i32 || b == 1i32) by (bit_vector)
        requires
            b == (x >> s) & 1i32,
    ;
}

pub proof fn lemma_octant_range(coords: [i32; 3], s: u32)
    ensures
        0 <= spec_octant(coords, s) < 8,
{
    lemma_cbit_range(coords[0], s);
    lemma_cbit_range(coords[1], s);
    lemma_cbit_range(coords[2], s);
}

/// The octant index of `cords` at bit `depth`: bit `depth` of x, y and z
/// packed into bits 0, 1 and 2.
pub fn get_octree_idx(cords: [i32; 3], depth: u32) -> (r: i32)
    requires
        depth < 32,
    ensures
        r == spec_octant(cords, depth),
        0 <= r < 8,
{
    let x = (cords[0] >> depth) & 1;
    let y = (cords[1] >> depth) & 1;
    let z = (cords[2] >> depth) & 1;
    proof {
        lemma_octant_range(cords, depth);
        lemma_cbit_range(cords[0], depth);
        lemma_cbit_range(cords[1], depth);
        lemma_cbit_range(cords[2], depth);
    }
    assert(x as int == spec_cbit(cords[0], depth));
    assert(y as int == spec_cbit(cords[1], depth));
    assert(z as int == spec_cbit(cords[2], depth));
    assert(x | (y << 1i32) | (z << 2i32) == x + 2 * y + 4 * z) by (bit_vector)
        requires
            x == 0i32 || x == 1i32,
            y == 0i32 || y == 1i32,
            z == 0i32 || z == 1i32,
    ;
    x | (y << 1) | (z << 2)
}

// ---------------------------------------------------------------------
// The node graph
// ---------------------------------------------------------------------

/// The header of node `k` (at offset `9 * k`).
pub open spec fn hdr(data: Seq<u32>, k: int) -> u32 {
    data[9 * k]
}

/// Slot `i` of node `k`.
pub open spec fn slot(data: Seq<u32>, k: int, i: int) -> u32 {
    data[9 * k + 1 + i]
}

/// The number of nodes in the buffer.
pub open spec fn node_count(data: Seq<u32>) -> int {
    data.len() as int / 9
}

/// Octant `i` of node `k` exists and points to a child node.
pub open spec fn is_link(data: Seq<u32>, k: int, i: int) -> bool {
    &&& 0 <= k < node_count(data)
    &&& 0 <= i < 8
    &&& spec_exists(hdr(data, k), i as u32)
    &&& !spec_final(hdr(data, k), i as u32)
}

/// The node that octant `i` of node `k` points to.
pub open spec fn link_target(data: Seq<u32>, k: int, i: int) -> int {
    slot(data, k, i) as int / 9
}

/// The node reached from the root by following, at each of the levels
/// `0..level`, the link of the octant that `coords` selects; `None` if
/// one of those octants is not a link.
pub open spec fn reach(data: Seq<u32>, coords: [i32; 3], depth: nat, level: nat) -> Option<int>
    decreases level,
{
    if level == 0 {
        Some(0)
    } else {
        match reach(data, coords, depth, (level - 1) as nat) {
            Some(k) => {
                let o = octant_at(coords, depth, (level - 1) as nat);
                if is_link(data, k, o) {
                    Some(link_target(data, k, o))
                } else {
                    None
                }
            },
            None => None,
        }
    }
}

/// What the tree holds for a cell.
pub enum Lookup {
    /// Nothing covers the cell.
    Empty,
    /// The cell is covered by a colour stored at level `level`.
    Leaf { level: nat, value: u32 },
    /// The cell is not covered, but smaller cells inside it are stored.
    Interior,
}

/// What the walk for `coords`, starting at node `k` on level `level`,
/// finds for the cell at level `target`.
pub open spec fn lookup_from(
    data: Seq<u32>,
    coords: [i32; 3],
    depth: nat,
    k: int,
    level: nat,
    target: nat,
) -> Lookup
    decreases target - level,
{
    let o = octant_at(coords, depth, level);
    let h = hdr(data, k);
    if !spec_exists(h, o as u32) {
        Lookup::Empty
    } else if spec_final(h, o as u32) {
        Lookup::Leaf { level, value: slot(data, k, o) }
    } else if level >= target {
        Lookup::Interior
    } else {
        lookup_from(data, coords, depth, link_target(data, k, o), level + 1, target)
    }
}

/// What the tree holds for the cell of `coords` at level `target`.
pub open spec fn lookup(data: Seq<u32>, coords: [i32; 3], depth: nat, target: nat) -> Lookup {
    lookup_from(data, coords, depth, 0, 0, target)
}

/// Two coordinates select the same octants at the levels `0..=level`,
/// i.e. they lie in the same cell of that level.
pub open spec fn same_prefix(c1: [i32; 3], c2: [i32; 3], depth: nat, level: nat) -> bool {
    forall|l: nat| l <= level ==> #[trigger] octant_at(c1, depth, l) == octant_at(c2, depth, l)
}

/// The links of the buffer form a forest rooted at node 0: every link
/// points forward to a node in the buffer, no node is the target of two
/// links, finals are existing octants, and links only hang below nodes
/// reached above the last level.
pub open spec fn links_wf(data: Seq<u32>, depth: nat) -> bool {
    &&& data.len() % 9 == 0
    &&& data.len() >= 9
    &&& data.len() <= u32::MAX
    &&& forall|k: int, i: int| #[trigger]
        is_link(data, k, i) ==> slot(data, k, i) % 9 == 0 && k < link_target(data, k, i)
            < node_count(data)
    &&& forall|k1: int, i1: int, k2: int, i2: int|
        #[trigger] is_link(data, k1, i1) && #[trigger] is_link(data, k2, i2) && slot(data, k1, i1)
            == slot(data, k2, i2) ==> k1 == k2 && i1 == i2
    &&& forall|k: int, i: int|
        0 <= k < node_count(data) && 0 <= i < 8 && #[trigger] spec_final(hdr(data, k), i as u32)
            ==> spec_exists(hdr(data, k), i as u32)
    &&& forall|c: [i32; 3], l: nat, i: int|
        #[trigger] reach(data, c, depth, l) is Some && #[trigger] is_link(
            data,
            reach(data, c, depth, l)->0,
            i,
        ) ==> l < depth
}

impl Octree {
    /// The buffer holds a well-formed tree.
    pub open spec fn wf(&self) -> bool {
        links_wf(self.data@, self.depth as nat)
    }

    /// What the tree holds for the cell of `coords` at level `target`.
    pub open spec fn spec_lookup(&self, coords: [i32; 3], target: nat) -> Lookup {
        lookup(self.data@, coords, self.depth as nat, target)
    }
}


proof fn lemma_zero_bits()
    ensures
        forall|i: u32| i < 32 ==> !#[trigger] spec_bit(0u32, i),
{
    assert forall|i: u32| i < 32 implies !#[trigger] spec_bit(0u32, i) by {
        assert(i < 32 ==> (0u32 >> i) & 1u32 == 0u32) by (bit_vector);
    }
}

impl Octree {
    /// The octant that `cords` selects on level `i`.
    pub fn get_oct_inverted(&self, cords: [i32; 3], i: u32) -> (r: i32)
        requires
            i <= self.depth,
            self.depth < 32,
        ensures
            r == octant_at(cords, self.depth as nat, i as nat),
            0 <= r < 8,
    {
        let depth = self.depth - i;
        get_octree_idx(cords, depth)
    }

    /// An empty octree of the given depth: just the root node, with no
    /// octant present.
    pub fn new(depth: u32) -> (r: Self)
        ensures
            r.depth == depth,
            r.data@.len() == 9,
            r.data@[0] == 0x4400_0000u32,
            forall|x: int| 0 < x < 9 ==> #[trigger] r.data@[x] == EMPTY_SLOT,
            r.wf(),
            forall|c: [i32; 3], t: nat| #[trigger] r.spec_lookup(c, t) == Lookup::Empty,
    {
        let mut output = Self { depth, data: Vec::new() };
        output.create_new_oct(0);
        proof {
            assert((0u32 | 0x4400_0000u32) == 0x4400_0000u32) by (bit_vector);
            lemma_zero_bits();
            let data = output.data@;
            assert(node_count(data) == 1);
            assert forall|k: int, i: int| 0 <= k < node_count(data) && 0 <= i < 8 implies !#[trigger] spec_bit(
                hdr(data, k),
                i as u32,
            ) && !spec_bit(hdr(data, k), (i + 8) as u32) by {
                assert(k == 0);
            }
            assert forall|c: [i32; 3], t: nat| #[trigger] output.spec_lookup(c, t) == Lookup::Empty by {
                lemma_octant_range(c, (depth - 0) as u32);
            }
        }
        output
    }

    /// Appends a node with the given header (tag added) and empty slots,
    /// returning its offset.
    pub fn create_new_oct(&mut self, header: u32) -> (r: usize)
        requires
            old(self).data@.len() + 9 <= usize::MAX,
        ensures
            final(self).depth == old(self).depth,
            r == old(self).data@.len(),
            final(self).data@.len() == old(self).data@.len() + 9,
            forall|x: int| 0 <= x < r ==> #[trigger] final(self).data@[x] == old(self).data@[x],
            forall|b: u32| b < 16 ==> #[trigger] spec_bit(final(self).data@[r as int], b) == spec_bit(header, b),
            final(self).data@[r as int] == header | 0x4400_0000u32,
            forall|x: int| r < x < r + 9 ==> #[trigger] final(self).data@[x] == EMPTY_SLOT,
    {
        let old_len = self.data.len();
        let mut header = header;
        set_header_tag(&mut header);
        assert((68u32 << 24u32) == 0x4400_0000u32) by (bit_vector);
        self.data.push(header);
        let mut i: usize = 0;
        while i < 8
            invariant
                0 <= i <= 8,
                self.depth == old(self).depth,
                old_len == old(self).data@.len(),
                self.data@.len() == old_len + 1 + i,
                forall|x: int| 0 <= x < old_len ==> #[trigger] self.data@[x] == old(self).data@[x],
                self.data@[old_len as int] == header,
                forall|x: int| old_len < x < old_len + 1 + i ==> #[trigger] self.data@[x] == EMPTY_SLOT,
            decreases 8 - i,
        {
            self.data.push(EMPTY_SLOT);
            i += 1;
        }
        old_len
    }
}


/// Bits below 16 of a fresh node's header: exactly octant `o` exists.
proof fn lemma_fresh_header(o: u32, h: u32, tagged: u32)
    requires
        o < 8,
        forall|i: u32| i < 32 ==> #[trigger] spec_bit(h, i) == (i == o || spec_bit(0u32, i)),
        forall|b: u32| b < 16 ==> #[trigger] spec_bit(tagged, b) == spec_bit(h, b),
    ensures
        forall|b: u32| b < 16 ==> #[trigger] spec_bit(tagged, b) == (b == o),
{
    lemma_zero_bits();
    assert forall|b: u32| b < 16 implies #[trigger] spec_bit(tagged, b) == (b == o) by {
        assert(spec_bit(h, b) == (b == o || spec_bit(0u32, b)));
    }
}

/// The header of a node appended by an insertion: the tag, the octant
/// on the path, and (on the last level) that octant marked final.
pub open spec fn fresh_header(o: int, last: bool) -> u32 {
    if last {
        0x4400_0000u32 | (1u32 << (o as u32)) | (1u32 << ((o + 8) as u32))
    } else {
        0x4400_0000u32 | (1u32 << (o as u32))
    }
}

/// The buffer `new` after inserting the packed colour `v` for the cell of
/// `coords` on level `t`, when the walk for `coords` left the tree at node
/// `p` on level `j`: octant `o_j` of node `p` is marked present (and final
/// if `j == t`) and gets the colour or a link to the first appended node;
/// one node per remaining level is appended, each linking to the next on
/// the path and the last holding the colour; nothing else changes.
pub open spec fn insert_layout(
    old: Seq<u32>,
    new: Seq<u32>,
    p: int,
    coords: [i32; 3],
    depth: nat,
    j: nat,
    t: nat,
    v: u32,
) -> bool {
    let n0 = node_count(old);
    let kk = t - j;
    let oj = octant_at(coords, depth, j);
    &&& new.len() == old.len() + 9 * kk
    &&& forall|x: int|
        0 <= x < old.len() && x != 9 * p && x != 9 * p + 1 + oj ==> #[trigger] new[x] == old[x]
    &&& new[9 * p] == (if kk == 0 {
        old[9 * p] | (1u32 << (oj as u32)) | (1u32 << ((oj + 8) as u32))
    } else {
        old[9 * p] | (1u32 << (oj as u32))
    })
    &&& new[9 * p + 1 + oj] == (if kk == 0 {
        v
    } else {
        (9 * n0) as u32
    })
    &&& forall|m: int|
        0 <= m < kk ==> #[trigger] new[9 * (n0 + m)] == fresh_header(
            octant_at(coords, depth, (j + 1 + m) as nat),
            m == kk - 1,
        )
    &&& forall|m: int, i: int|
        0 <= m < kk && 0 <= i < 8 ==> #[trigger] new[9 * (n0 + m) + 1 + i] == (if i == octant_at(
            coords,
            depth,
            (j + 1 + m) as nat,
        ) {
            if m == kk - 1 {
                v
            } else {
                (9 * (n0 + m + 1)) as u32
            }
        } else {
            EMPTY_SLOT
        })
}

/// The offset of the slot that holds the colour after such an insertion.
pub open spec fn inserted_offset(old: Seq<u32>, p: int, coords: [i32; 3], depth: nat, j: nat, t: nat) -> int {
    if t == j {
        9 * p + 1 + octant_at(coords, depth, j)
    } else {
        9 * (node_count(old) + t - j - 1) + 1 + octant_at(coords, depth, t)
    }
}

/// What inserting the packed colour `v` for the cell of `coords` on
/// level `t` does to the cells of the buffer: where that cell was empty,
/// the buffer stays well formed and every cell reads as
/// `lookup_after_insert` says; otherwise nothing changes.
pub open spec fn insert_effect(
    old: Seq<u32>,
    new: Seq<u32>,
    coords: [i32; 3],
    depth: nat,
    t: nat,
    v: u32,
) -> bool {
    if lookup(old, coords, depth, t) is Empty {
        &&& links_wf(new, depth)
        &&& forall|c: [i32; 3], tt: nat|
            tt <= depth ==> #[trigger] lookup(new, c, depth, tt) == lookup_after_insert(
                old,
                coords,
                depth,
                t,
                v,
                c,
                tt,
            )
    } else {
        new == old
    }
}

impl Octree {
    /// Inserts `value` for the cell `node` (its coordinates and level).
    ///
    /// Nothing changes and `None` is returned if the level is deeper than
    /// the tree, or if the cell is already covered by a colour or already
    /// holds smaller cells. Otherwise the missing nodes along the way are
    /// appended, the cell becomes a leaf holding the packed colour, and
    /// the offset of the slot holding it is returned.
    pub fn insert(&mut self, node: &OctreePos, value: [u8; 4]) -> (r: Option<u32>)
        requires
            old(self).wf(),
            node.depth <= old(self).depth ==> old(self).depth < 32,
            old(self).data@.len() + 9 * (node.depth as int) <= u32::MAX,
        ensures
            final(self).depth == old(self).depth,
            node.depth > old(self).depth ==> r is None,
            node.depth <= old(self).depth ==> (r is Some <==> old(self).spec_lookup(
                node.coords,
                node.depth as nat,
            ) is Empty),
            r is None ==> final(self).data@ == old(self).data@,
            node.depth <= old(self).depth ==> insert_effect(
                old(self).data@,
                final(self).data@,
                node.coords,
                old(self).depth as nat,
                node.depth as nat,
                spec_from_color(value),
            ),
            r matches Some(idx) ==> exists|p: int, j: nat|
                reach(old(self).data@, node.coords, old(self).depth as nat, j) == Some(p)
                    && j <= node.depth && !spec_exists(
                    hdr(old(self).data@, p),
                    octant_at(node.coords, old(self).depth as nat, j) as u32,
                ) && #[trigger] insert_layout(
                    old(self).data@,
                    final(self).data@,
                    p,
                    node.coords,
                    old(self).depth as nat,
                    j,
                    node.depth as nat,
                    spec_from_color(value),
                ) && idx == inserted_offset(
                    old(self).data@,
                    p,
                    node.coords,
                    old(self).depth as nat,
                    j,
                    node.depth as nat,
                ),
            r matches Some(idx) ==> {
                &&& final(self).wf()
                &&& idx < final(self).data@.len()
                &&& final(self).data@[idx as int] == spec_from_color(value)
                &&& forall|c: [i32; 3], tt: nat|
                    tt <= old(self).depth ==> #[trigger] final(self).spec_lookup(c, tt)
                        == lookup_after_insert(
                        old(self).data@,
                        node.coords,
                        old(self).depth as nat,
                        node.depth as nat,
                        spec_from_color(value),
                        c,
                        tt,
                    )
            },
    {
        if node.depth > self.depth {
            return None;
        }
        let ghost old_data = self.data@;
        let ghost dd = self.depth as nat;
        let ghost coords = node.coords;
        let t = node.depth;

        let mut current_pointer: u32 = 0;
        let mut current_oct: u32 = self.get_oct_inverted(node.coords, 0) as u32;
        let mut d: u32 = 0;
        let mut gap = false;

        // follow the octants that already exist
        while !gap && d < t
            invariant
                self.data@ == old_data,
                self.depth as nat == dd,
                links_wf(old_data, dd),
                dd < 32,
                d <= t <= dd,
                t == node.depth,
                coords == node.coords,
                current_pointer % 9 == 0,
                reach(old_data, coords, dd, d as nat) == Some(current_pointer as int / 9),
                current_oct as int == octant_at(coords, dd, d as nat),
                current_oct < 8,
                gap ==> !spec_exists(hdr(old_data, current_pointer as int / 9), current_oct),
                gap ==> d < t,
            decreases t - d + (if gap {
                0int
            } else {
                1int
            }),
        {
            proof {
                lemma_reach_bounds(old_data, coords, dd, d as nat);
                lemma_lookup_reach(old_data, coords, dd, current_pointer as int / 9, d as nat, t as nat);
            }
            let header = self.data[current_pointer as usize];
            if !get_exists(header, current_oct) {
                gap = true;
            } else if get_final(header, current_oct) {
                return None;
            } else {
                let ghost k = current_pointer as int / 9;
                assert(is_link(old_data, k, current_oct as int));
                let next = self.data[(current_pointer + 1 + current_oct) as usize];
                d = d + 1;
                current_pointer = next;
                current_oct = self.get_oct_inverted(node.coords, d) as u32;
            }
        }
        proof {
            lemma_reach_bounds(old_data, coords, dd, d as nat);
            lemma_lookup_reach(old_data, coords, dd, current_pointer as int / 9, d as nat, t as nat);
        }
        if !gap {
            let header = self.data[current_pointer as usize];
            if get_exists(header, current_oct) {
                return None;
            }
        }
        // the walk left the tree at node `p` on level `j`
        let ghost p = current_pointer as int / 9;
        let ghost j = d as nat;
        let ghost n0 = node_count(old_data);
        let ghost oj = current_oct as int;
        assert(!spec_exists(hdr(old_data, p), oj as u32));
        assert(lookup(old_data, coords, dd, t as nat) is Empty);

        // append one fresh node per remaining level
        while d < t
            invariant
                self.depth as nat == dd,
                links_wf(old_data, dd),
                dd < 32,
                j <= d <= t <= dd,
                t == node.depth,
                coords == node.coords,
                0 <= p < n0,
                n0 == node_count(old_data),
                old_data.len() == 9 * n0,
                old_data.len() + 9 * (t as int) <= u32::MAX,
                oj == octant_at(coords, dd, j),
                0 <= oj < 8,
                current_oct as int == octant_at(coords, dd, d as nat),
                current_oct < 8,
                self.data@.len() == old_data.len() + 9 * (d - j),
                current_pointer as int + 9 <= self.data@.len(),
                current_pointer as int == (if d == j {
                    9 * p
                } else {
                    9 * (n0 + d - j - 1)
                }),
                forall|x: int| 0 <= x < old_data.len() && x / 9 != p ==> #[trigger] self.data@[x] == old_data[x],
                forall|i: int| 0 <= i < 8 && i != oj ==> #[trigger] slot(self.data@, p, i) == slot(old_data, p, i),
                forall|b: u32| b < 16 ==> #[trigger] spec_bit(hdr(self.data@, p), b) == (spec_bit(hdr(old_data, p), b) || (d > j && b == oj)),
                d > j ==> slot(self.data@, p, oj) == 9 * n0,
                forall|m: int, b: u32| 0 <= m < d - j && b < 16 ==> #[trigger] spec_bit(hdr(self.data@, n0 + m), b) == (b == octant_at(coords, dd, (j + 1 + m) as nat)),
                forall|m: int| 0 <= m < d - j - 1 ==> #[trigger] slot(self.data@, n0 + m, octant_at(coords, dd, (j + 1 + m) as nat)) == 9 * (n0 + m + 1),
                self.data@[9 * p] == (if d > j { old_data[9 * p] | (1u32 << (oj as u32)) } else { old_data[9 * p] }),
                forall|m: int| 0 <= m < d - j ==> #[trigger] self.data@[9 * (n0 + m)] == fresh_header(octant_at(coords, dd, (j + 1 + m) as nat), false),
                forall|m: int, i: int| 0 <= m < d - j && 0 <= i < 8 && (i != octant_at(coords, dd, (j + 1 + m) as nat) || m == d - j - 1) ==> #[trigger] self.data@[9 * (n0 + m) + 1 + i] == EMPTY_SLOT,
            decreases t - d,
        {
            let ghost before = self.data@;
            let next_oct = self.get_oct_inverted(node.coords, d + 1) as u32;
            let mut next_header: u32 = 0;
            set_exists(&mut next_header, next_oct);
            let next_pointer = self.create_new_oct(next_header) as u32;
            proof {
                lemma_fresh_header(next_oct, next_header, self.data@[next_pointer as int]);
            }
            let ghost appended = self.data@;
            let mut header = self.data[current_pointer as usize];
            set_exists(&mut header, current_oct);
            self.data.set(current_pointer as usize, header);
            self.data.set((current_pointer + 1 + current_oct) as usize, next_pointer);
            proof {
                let now = self.data@;
                let cp = current_pointer as int;
                let dj = d - j;
                assert(next_pointer as int == 9 * (n0 + dj));
                assert(((0u32 | (1u32 << next_oct)) | 0x4400_0000u32) == (0x4400_0000u32 | (1u32 << next_oct))) by (bit_vector);
                assert(((0x4400_0000u32 | (1u32 << current_oct)) | (1u32 << current_oct)) == (0x4400_0000u32 | (1u32 << current_oct))) by (bit_vector);
                assert(now[next_pointer as int] == fresh_header(octant_at(coords, dd, (d + 1) as nat), false));
                assert forall|m: int| 0 <= m < dj + 1 implies #[trigger] now[9 * (n0 + m)] == fresh_header(octant_at(coords, dd, (j + 1 + m) as nat), false) by {
                    if m < dj - 1 || (m == dj - 1 && d == j) {
                        assert(now[9 * (n0 + m)] == before[9 * (n0 + m)]);
                    } else if m == dj - 1 {
                        assert(cp == 9 * (n0 + m));
                    } else {
                        assert(9 * (n0 + m) == next_pointer as int);
                    }
                }
                assert forall|m: int, i: int| 0 <= m < dj + 1 && 0 <= i < 8 && (i != octant_at(coords, dd, (j + 1 + m) as nat) || m == dj) implies #[trigger] now[9 * (n0 + m) + 1 + i] == EMPTY_SLOT by {
                    if m < dj {
                        assert(now[9 * (n0 + m) + 1 + i] == before[9 * (n0 + m) + 1 + i]);
                    } else {
                        assert(now[9 * (n0 + m) + 1 + i] == appended[9 * (n0 + m) + 1 + i]);
                    }
                }
                assert forall|x: int| 0 <= x < old_data.len() && x / 9 != p implies #[trigger] now[x] == old_data[x] by {
                    assert(now[x] == before[x]);
                }
                assert forall|i: int| 0 <= i < 8 && i != oj implies #[trigger] slot(now, p, i) == slot(old_data, p, i) by {
                    assert(slot(now, p, i) == slot(before, p, i));
                }
                if d == j {
                    assert forall|b: u32| b < 16 implies #[trigger] spec_bit(hdr(now, p), b) == (spec_bit(hdr(old_data, p), b) || (d + 1 > j && b == oj)) by {
                        assert(spec_bit(hdr(now, p), b) == (b == current_oct || spec_bit(hdr(before, p), b)));
                    }
                } else {
                    assert forall|b: u32| b < 16 implies #[trigger] spec_bit(hdr(now, p), b) == (spec_bit(hdr(old_data, p), b) || (d + 1 > j && b == oj)) by {
                        assert(hdr(now, p) == hdr(before, p));
                    }
                }
                assert forall|m: int, b: u32| 0 <= m < dj + 1 && b < 16 implies #[trigger] spec_bit(hdr(now, n0 + m), b) == (b == octant_at(coords, dd, (j + 1 + m) as nat)) by {
                    if m < dj - 1 || (m == dj - 1 && d == j) {
                        assert(hdr(now, n0 + m) == hdr(before, n0 + m));
                    } else if m == dj - 1 {
                        assert(cp == 9 * (n0 + m));
                        assert(spec_bit(hdr(now, n0 + m), b) == (b == current_oct || spec_bit(hdr(before, n0 + m), b)));
                    } else {
                        assert(hdr(now, n0 + m) == appended[next_pointer as int]);
                    }
                }
                assert forall|m: int| 0 <= m < dj implies #[trigger] slot(now, n0 + m, octant_at(coords, dd, (j + 1 + m) as nat)) == 9 * (n0 + m + 1) by {
                    if m < dj - 1 {
                        lemma_octant_range(coords, (dd - (j + 1 + m)) as u32);
                        assert(slot(now, n0 + m, octant_at(coords, dd, (j + 1 + m) as nat)) == slot(before, n0 + m, octant_at(coords, dd, (j + 1 + m) as nat)));
                    }
                }
            }
            current_pointer = next_pointer;
            current_oct = next_oct;
            d = d + 1;
        }

        // the last node holds the colour
        let next_node = current_pointer + 1 + current_oct;
        let ghost before = self.data@;
        let mut header = self.data[current_pointer as usize];
        let ghost h0 = header;
        set_exists(&mut header, current_oct);
        let ghost h1 = header;
        set_final(&mut header, current_oct);
        self.data.set(current_pointer as usize, header);
        let packed = from_color(value);
        self.data.set(next_node as usize, packed);
        proof {
            let now = self.data@;
            let v = spec_from_color(value);
            let kk = t - j;
            let cp = current_pointer as int;
            assert forall|x: int| 0 <= x < old_data.len() && x / 9 != p implies #[trigger] now[x] == old_data[x] by {
                assert(now[x] == before[x]);
            }
            assert forall|i: int| 0 <= i < 8 && i != oj implies #[trigger] slot(now, p, i) == slot(old_data, p, i) by {
                assert(slot(now, p, i) == slot(before, p, i));
            }
            assert forall|b: u32| b < 16 implies #[trigger] spec_bit(hdr(now, p), b) == (spec_bit(hdr(old_data, p), b) || b == oj || (kk == 0 && b == oj + 8)) by {
                if kk != 0 {
                    assert(hdr(now, p) == hdr(before, p));
                } else {
                    assert(hdr(now, p) == header);
                    assert(h0 == hdr(before, p));
                    assert(spec_bit(header, b) == (b == current_oct + 8 || spec_bit(h1, b)));
                    assert(spec_bit(h1, b) == (b == current_oct || spec_bit(h0, b)));
                }
            }
            assert forall|m: int, b: u32| 0 <= m < kk && b < 16 implies #[trigger] spec_bit(hdr(now, n0 + m), b) == (b == octant_at(coords, dd, (j + 1 + m) as nat) || (m == kk - 1 && b == octant_at(coords, dd, (j + 1 + m) as nat) + 8)) by {
                if m < kk - 1 {
                    assert(hdr(now, n0 + m) == hdr(before, n0 + m));
                } else {
                    assert(cp == 9 * (n0 + m));
                    assert(hdr(now, n0 + m) == header);
                    assert(h0 == hdr(before, n0 + m));
                    assert(spec_bit(header, b) == (b == current_oct + 8 || spec_bit(h1, b)));
                    assert(spec_bit(h1, b) == (b == current_oct || spec_bit(h0, b)));
                }
            }
            assert forall|m: int| 0 <= m < kk implies #[trigger] slot(now, n0 + m, octant_at(coords, dd, (j + 1 + m) as nat)) == (if m == kk - 1 { v } else { (9 * (n0 + m + 1)) as u32 }) by {
                lemma_octant_range(coords, (dd - (j + 1 + m)) as u32);
                if m < kk - 1 {
                    assert(slot(now, n0 + m, octant_at(coords, dd, (j + 1 + m) as nat)) == slot(before, n0 + m, octant_at(coords, dd, (j + 1 + m) as nat)));
                }
            }
            assert(insert_shape(old_data, now, p, coords, dd, j, t as nat, v));
            assert(insert_pre(old_data, now, p, coords, dd, j, t as nat, v));
            lemma_insert_wf(old_data, now, p, coords, dd, j, t as nat, v);
            assert((((0x4400_0000u32 | (1u32 << current_oct)) | (1u32 << current_oct)) | (1u32 << (current_oct + 8) as u32)) == (0x4400_0000u32 | (1u32 << current_oct) | (1u32 << (current_oct + 8) as u32))) by (bit_vector);
            assert(h1 == h0 | (1u32 << current_oct));
            assert(header == h1 | (1u32 << (current_oct + 8) as u32));
            assert(now[cp] == header);
            if kk == 0 {
                assert(cp == 9 * p);
                assert(h0 == old_data[9 * p]);
                assert(oj as u32 == current_oct);
            } else {
                assert(cp == 9 * (n0 + (kk - 1)));
                assert(h0 == fresh_header(octant_at(coords, dd, (j + 1 + (kk - 1)) as nat), false));
                assert((j + 1 + (kk - 1)) as nat == t as nat);
            }
            assert(now[cp] == (if kk == 0 {
                old_data[9 * p] | (1u32 << (oj as u32)) | (1u32 << ((oj + 8) as u32))
            } else {
                fresh_header(octant_at(coords, dd, t as nat), true)
            }));
            assert forall|x: int| 0 <= x < old_data.len() && x != 9 * p && x != 9 * p + 1 + oj implies #[trigger] now[x] == old_data[x] by {
                if x / 9 == p {
                    let i = x - 9 * p - 1;
                    assert(slot(now, p, i) == slot(old_data, p, i));
                } else {
                    assert(now[x] == old_data[x]);
                }
            }
            assert forall|m: int| 0 <= m < kk implies #[trigger] now[9 * (n0 + m)] == fresh_header(octant_at(coords, dd, (j + 1 + m) as nat), m == kk - 1) by {
                if m < kk - 1 {
                    assert(now[9 * (n0 + m)] == before[9 * (n0 + m)]);
                } else {
                    assert(cp == 9 * (n0 + m));
                }
            }
            assert forall|m: int, i: int| 0 <= m < kk && 0 <= i < 8 implies #[trigger] now[9 * (n0 + m) + 1 + i] == (if i == octant_at(coords, dd, (j + 1 + m) as nat) {
                if m == kk - 1 { v } else { (9 * (n0 + m + 1)) as u32 }
            } else {
                EMPTY_SLOT
            }) by {
                lemma_octant_range(coords, (dd - (j + 1 + m)) as u32);
                if m < kk - 1 {
                    assert(now[9 * (n0 + m) + 1 + i] == before[9 * (n0 + m) + 1 + i]);
                    if i == octant_at(coords, dd, (j + 1 + m) as nat) {
                        assert(slot(before, n0 + m, i) == 9 * (n0 + m + 1));
                    }
                } else {
                    assert(cp == 9 * (n0 + m));
                    if i != current_oct {
                        assert(now[9 * (n0 + m) + 1 + i] == before[9 * (n0 + m) + 1 + i]);
                    }
                }
            }
            assert(insert_layout(old_data, now, p, coords, dd, j, t as nat, v));
            assert(next_node as int == inserted_offset(old_data, p, coords, dd, j, t as nat));
            assert forall|c: [i32; 3], tt: nat| tt <= dd implies #[trigger] self.spec_lookup(c, tt) == lookup_after_insert(old_data, coords, dd, t as nat, v, c, tt) by {
                lemma_insert_lookup(old_data, now, p, coords, dd, j, t as nat, v, c, tt);
            }
            assert forall|c: [i32; 3], tt: nat| tt <= dd implies #[trigger] lookup(now, c, dd, tt) == lookup_after_insert(old_data, coords, dd, t as nat, v, c, tt) by {
                lemma_insert_lookup(old_data, now, p, coords, dd, j, t as nat, v, c, tt);
            }
            assert(lookup(old_data, coords, dd, t as nat) is Empty);
            assert(insert_effect(old_data, now, coords, dd, t as nat, v));
        }
        Some(next_node)
    }
}


/// The coordinates that `store` accepts for a tree of depth `depth`:
/// every coordinate in `1 .. 2^(depth + 1) - 1`.
pub open spec fn store_in_bounds(position: [i32; 3], depth: nat) -> bool {
    forall|k: int| 0 <= k < 3 ==> 1 <= #[trigger] position[k] < pow2(depth + 1) - 1
}

impl Octree {
    /// Stores a voxel colour at `position` on the deepest level.
    ///
    /// Positions outside `1 .. 2^(depth + 1) - 1` (on any axis) are
    /// dropped; so is a position whose cell is already taken. Otherwise
    /// the voxel is inserted as by [`Octree::insert`].
    pub fn store(&mut self, position: [i32; 3], val: [u8; 4])
        requires
            old(self).wf(),
            old(self).depth <= 29,
            old(self).data@.len() + 9 * (old(self).depth as int) <= u32::MAX,
        ensures
            final(self).depth == old(self).depth,
            final(self).wf(),
            !store_in_bounds(position, old(self).depth as nat) ==> final(self).data@ == old(
                self,
            ).data@,
            store_in_bounds(position, old(self).depth as nat) && !(old(self).spec_lookup(
                position,
                old(self).depth as nat,
            ) is Empty) ==> final(self).data@ == old(self).data@,
            store_in_bounds(position, old(self).depth as nat) && old(self).spec_lookup(
                position,
                old(self).depth as nat,
            ) is Empty ==> forall|c: [i32; 3], tt: nat|
                tt <= old(self).depth ==> #[trigger] final(self).spec_lookup(c, tt)
                    == lookup_after_insert(
                    old(self).data@,
                    position,
                    old(self).depth as nat,
                    old(self).depth as nat,
                    spec_from_color(val),
                    c,
                    tt,
                ),
    {
        let node = OctreePos { coords: position, depth: self.depth };
        let shift = self.depth + 1;
        proof {
            vstd::bits::lemma_u32_pow2_no_overflow(shift as nat);
            vstd::bits::lemma_u32_shl_is_mul(1u32, shift);
        }
        let limit_u: u32 = 1u32 << shift;
        proof {
            vstd::arithmetic::power2::lemma_pow2_strictly_increases(shift as nat, 31);
            vstd::arithmetic::power2::lemma2_to64();
        }
        let limit: i32 = (limit_u - 1) as i32;
        let min_element = if position[0] < position[1] {
            if position[0] < position[2] { position[0] } else { position[2] }
        } else {
            if position[1] < position[2] { position[1] } else { position[2] }
        };
        let max_element = if position[0] > position[1] {
            if position[0] > position[2] { position[0] } else { position[2] }
        } else {
            if position[1] > position[2] { position[1] } else { position[2] }
        };

        // bc floating point error some erroneous voxels
        if min_element < 1 || max_element >= limit {
            proof {
                assert(!store_in_bounds(position, self.depth as nat)) by {
                    if position[0] < 1 || position[0] >= limit {
                        assert(!(1 <= position[0] < pow2(self.depth as nat + 1) - 1));
                    } else if position[1] < 1 || position[1] >= limit {
                        assert(!(1 <= position[1] < pow2(self.depth as nat + 1) - 1));
                    } else {
                        assert(!(1 <= position[2] < pow2(self.depth as nat + 1) - 1));
                    }
                }
            }
            return;
        }
        assert(store_in_bounds(position, self.depth as nat));
        self.insert(&node, val);
    }
}


/// A node visited while collecting: its offset, and the coordinates and
/// level of its cell.
#[derive(Debug, Clone)]
pub struct IterStruct {
    pub offset: u32,
    pub cords: OctreePos,
}

/// Non-negative coordinates below `2^(depth + 1)` whose bits below the
/// octant bit of `level` are clear: the corner of a cell on that level.
pub open spec fn coords_aligned(x: [i32; 3], depth: nat, level: nat) -> bool {
    forall|k: int|
        0 <= k < 3 ==> 0 <= #[trigger] x[k] && x[k] >> (depth + 1) as u32 == 0i32 && spec_trunc(
            x[k],
            (depth - level) as u32,
        ) == x[k]
}

/// `(pos, v)` is a leaf of the tree: `pos` is the corner of a cell on
/// level `pos.depth`, and that cell holds the colour `v`.
pub open spec fn is_leaf_entry(data: Seq<u32>, depth: nat, pos: OctreePos, v: u32) -> bool {
    &&& pos.depth <= depth
    &&& coords_aligned(pos.coords, depth, pos.depth as nat)
    &&& lookup(data, pos.coords, depth, pos.depth as nat) == Lookup::Leaf {
        level: pos.depth as nat,
        value: v,
    }
}

/// `x` lies in the cell on level `level` whose corner is `c`.
pub open spec fn in_cell(x: [i32; 3], c: [i32; 3], depth: nat, level: nat) -> bool {
    forall|k: int| 0 <= k < 3 ==> spec_trunc(#[trigger] x[k], (depth - level + 1) as u32) == c[k]
}

/// The corner offset of octant `i`: bit 0 of `i` on x, bit 1 on y, bit 2
/// on z.
fn oct_perm(i: u32) -> (r: [i32; 3])
    requires
        i < 8,
    ensures
        r[0] == (i as i32) & 1i32,
        r[1] == ((i as i32) >> 1i32) & 1i32,
        r[2] == ((i as i32) >> 2i32) & 1i32,
{
    let c = i as i32;
    [c & 1, (c >> 1) & 1, (c >> 2) & 1]
}

proof fn lemma_perm_bits(i: i32)
    requires
        0 <= i < 8,
    ensures
        (i & 1i32) == 0i32 || (i & 1i32) == 1i32,
        ((i >> 1i32) & 1i32) == 0i32 || ((i >> 1i32) & 1i32) == 1i32,
        ((i >> 2i32) & 1i32) == 0i32 || ((i >> 2i32) & 1i32) == 1i32,
        (i & 1i32) + 2 * ((i >> 1i32) & 1i32) + 4 * ((i >> 2i32) & 1i32) == i,
{
    assert((i & 1i32) + 2 * ((i >> 1i32) & 1i32) + 4 * ((i >> 2i32) & 1i32) == i && ((i & 1i32)
        == 0i32 || (i & 1i32) == 1i32) && (((i >> 1i32) & 1i32) == 0i32 || ((i >> 1i32) & 1i32)
        == 1i32) && (((i >> 2i32) & 1i32) == 0i32 || ((i >> 2i32) & 1i32) == 1i32))
        by (bit_vector)
        requires
            0 <= i < 8,
    ;
}

/// Three bits that spell the octant `i` are the bits of `i`.
proof fn lemma_octant_bits(x: [i32; 3], s: u32, i: int)
    requires
        spec_octant(x, s) == i,
    ensures
        spec_cbit(x[0], s) == ((i as i32) & 1i32),
        spec_cbit(x[1], s) == (((i as i32) >> 1i32) & 1i32),
        spec_cbit(x[2], s) == (((i as i32) >> 2i32) & 1i32),
{
    lemma_cbit_range(x[0], s);
    lemma_cbit_range(x[1], s);
    lemma_cbit_range(x[2], s);
    let b0 = ((x[0] >> s) & 1i32);
    let b1 = ((x[1] >> s) & 1i32);
    let b2 = ((x[2] >> s) & 1i32);
    let ii = i as i32;
    assert(ii == b0 + 2 * b1 + 4 * b2);
    assert(b0 == ii & 1i32 && b1 == (ii >> 1i32) & 1i32 && b2 == (ii >> 2i32) & 1i32) by (bit_vector)
        requires
            b0 == 0i32 || b0 == 1i32,
            b1 == 0i32 || b1 == 1i32,
            b2 == 0i32 || b2 == 1i32,
            ii == b0 + 2 * b1 + 4 * b2,
    ;
}

pub proof fn lemma_octant_range_all()
    ensures
        forall|x: [i32; 3], s: u32| 0 <= #[trigger] spec_octant(x, s) < 8,
{
    assert forall|x: [i32; 3], s: u32| 0 <= #[trigger] spec_octant(x, s) < 8 by {
        lemma_octant_range(x, s);
    }
}

/// The corner of child octant `i` of the cell with corner `c` on level
/// `ll`: it is reached along the same walk, selects octant `i`, and is
/// the corner of a cell on level `ll + 1`.
proof fn lemma_child_corner(
    data: Seq<u32>,
    dd: nat,
    c: [i32; 3],
    ll: nat,
    nn: int,
    i: u32,
    perm: [i32; 3],
    y: [i32; 3],
)
    requires
        dd <= 30,
        ll <= dd,
        i < 8,
        reach(data, c, dd, ll) == Some(nn),
        forall|k: int|
            0 <= k < 3 ==> 0 <= #[trigger] c[k] && c[k] >> (dd + 1) as u32 == 0i32 && spec_trunc(
                c[k],
                (dd - ll + 1) as u32,
            ) == c[k],
        perm[0] == (i as i32) & 1i32,
        perm[1] == ((i as i32) >> 1i32) & 1i32,
        perm[2] == ((i as i32) >> 2i32) & 1i32,
        forall|k: int| 0 <= k < 3 ==> #[trigger] y[k] == c[k] + (perm[k] << (dd - ll) as u32),
    ensures
        reach(data, y, dd, ll) == Some(nn),
        octant_at(y, dd, ll) == i,
        coords_aligned(y, dd, ll),
        in_cell(y, c, dd, ll),
        forall|k: int|
            0 <= k < 3 ==> 0 <= #[trigger] y[k] && y[k] >> (dd + 1) as u32 == 0i32 && spec_trunc(
                y[k],
                (dd - (ll + 1) + 1) as u32,
            ) == y[k],
{
    let s = (dd - ll) as u32;
    lemma_perm_bits(i as i32);
    lemma_add_bit(c[0], perm[0], s, dd as u32);
    lemma_add_bit(c[1], perm[1], s, dd as u32);
    lemma_add_bit(c[2], perm[2], s, dd as u32);
    assert(spec_octant(y, s) == i);
    assert forall|l: nat| l < ll implies #[trigger] octant_at(y, dd, l) == octant_at(c, dd, l) by {
        lemma_trunc_bit(y[0], (s + 1) as u32, (dd - l) as u32);
        lemma_trunc_bit(y[1], (s + 1) as u32, (dd - l) as u32);
        lemma_trunc_bit(y[2], (s + 1) as u32, (dd - l) as u32);
    }
    lemma_reach_prefix(data, y, c, dd, ll);
}

/// A leaf in the cell `c` on level `ll` whose coordinates select octant
/// `i` lies in the child cell `y`, and its lookup continues at node `nn`.
proof fn lemma_leaf_in_child(
    data: Seq<u32>,
    dd: nat,
    c: [i32; 3],
    ll: nat,
    nn: int,
    i: u32,
    perm: [i32; 3],
    y: [i32; 3],
    pos: OctreePos,
    v: u32,
)
    requires
        dd <= 30,
        ll <= dd,
        i < 8,
        reach(data, c, dd, ll) == Some(nn),
        perm[0] == (i as i32) & 1i32,
        perm[1] == ((i as i32) >> 1i32) & 1i32,
        perm[2] == ((i as i32) >> 2i32) & 1i32,
        forall|k: int| 0 <= k < 3 ==> #[trigger] y[k] == c[k] + (perm[k] << (dd - ll) as u32),
        is_leaf_entry(data, dd, pos, v),
        pos.depth >= ll,
        in_cell(pos.coords, c, dd, ll),
        octant_at(pos.coords, dd, ll) == i,
    ensures
        lookup(data, pos.coords, dd, pos.depth as nat) == lookup_from(
            data,
            pos.coords,
            dd,
            nn,
            ll,
            pos.depth as nat,
        ),
        in_cell(pos.coords, y, dd, ll + 1),
        pos.depth == ll ==> pos.coords == y,
{
    let x = pos.coords;
    let s = (dd - ll) as u32;
    assert forall|l: nat| l < ll implies #[trigger] octant_at(x, dd, l) == octant_at(c, dd, l) by {
        assert(spec_trunc(x[0], (s + 1) as u32) == c[0]);
        assert(spec_trunc(x[1], (s + 1) as u32) == c[1]);
        assert(spec_trunc(x[2], (s + 1) as u32) == c[2]);
        lemma_trunc_bit(x[0], (s + 1) as u32, (dd - l) as u32);
        lemma_trunc_bit(x[1], (s + 1) as u32, (dd - l) as u32);
        lemma_trunc_bit(x[2], (s + 1) as u32, (dd - l) as u32);
    }
    lemma_reach_prefix(data, x, c, dd, ll);
    lemma_lookup_reach(data, x, dd, nn, ll, pos.depth as nat);
    lemma_octant_bits(x, s, i as int);
    assert(0 <= x[0] && 0 <= x[1] && 0 <= x[2]);
    lemma_trunc_step(x[0], s);
    lemma_trunc_step(x[1], s);
    lemma_trunc_step(x[2], s);
    assert(in_cell(x, y, dd, ll + 1)) by {
        assert forall|k: int| 0 <= k < 3 implies spec_trunc(#[trigger] x[k], (dd - (ll + 1) + 1) as u32) == y[k] by {
            assert((dd - (ll + 1) + 1) as u32 == s);
        }
    }
    if pos.depth == ll {
        assert(x[0] == y[0] && x[1] == y[1] && x[2] == y[2]);
        assert(x =~= y);
    }
}

/// Whether the cell corner `a` comes before `b` in depth-first octant
/// (Morton) order: at the first level where their octants differ, the
/// octant of `a` is the smaller.
pub open spec fn octant_order_less(a: [i32; 3], b: [i32; 3], depth: nat) -> bool {
    exists|l: nat|
        l <= depth && #[trigger] octant_at(a, depth, l) < octant_at(b, depth, l) && agree_before(
            a,
            b,
            depth,
            l,
        )
}

/// Whether `a` and `b` select the same octants on every level above `l`.
pub open spec fn agree_before(a: [i32; 3], b: [i32; 3], depth: nat, l: nat) -> bool {
    forall|m: nat| m < l ==> #[trigger] octant_at(a, depth, m) == octant_at(b, depth, m)
}

/// Corners in Morton order are different corners.
pub proof fn lemma_octant_order_distinct(a: [i32; 3], b: [i32; 3], depth: nat)
    requires
        octant_order_less(a, b, depth),
    ensures
        a != b,
{
}

/// A point in the cell of corner `c` on level `lv` selects the same
/// octants as `c` on every level above `lv`.
proof fn lemma_in_cell_octants(x: [i32; 3], c: [i32; 3], dd: nat, lv: nat)
    requires
        dd <= 30,
        lv <= dd + 1,
        0 <= x[0] && 0 <= x[1] && 0 <= x[2],
        in_cell(x, c, dd, lv),
    ensures
        agree_before(x, c, dd, lv),
{
    let t = (dd - lv + 1) as u32;
    assert forall|l: nat| l < lv implies #[trigger] octant_at(x, dd, l) == octant_at(c, dd, l) by {
        assert(spec_trunc(x[0], t) == c[0]);
        assert(spec_trunc(x[1], t) == c[1]);
        assert(spec_trunc(x[2], t) == c[2]);
        lemma_trunc_bit(x[0], t, (dd - l) as u32);
        lemma_trunc_bit(x[1], t, (dd - l) as u32);
        lemma_trunc_bit(x[2], t, (dd - l) as u32);
    }
}

/// Whether the entries of `s` between `from` and `to` are in Morton order.
pub open spec fn morton_sorted(s: Seq<(OctreePos, u32)>, from: int, to: int, depth: nat) -> bool {
    forall|a: int, b: int|
        from <= a < b < to ==> #[trigger] octant_order_less(s[a].0.coords, s[b].0.coords, depth)
}

/// Whether no two entries of `s` are for the same cell.
pub open spec fn distinct_cells(s: Seq<(OctreePos, u32)>) -> bool {
    forall|a: int, b: int| 0 <= a < b < s.len() ==> #[trigger] s[a].0 != #[trigger] s[b].0
}

/// The leaves found for octant `i` of the node at corner `c` (level `ll`)
/// come after those found for smaller octants, in Morton order.
proof fn lemma_octant_step_sorted(
    s: Seq<(OctreePos, u32)>,
    start: int,
    mid: int,
    dd: nat,
    ll: nat,
    c: [i32; 3],
    y: [i32; 3],
    i: int,
)
    requires
        dd <= 30,
        ll <= dd,
        0 <= start <= mid <= s.len(),
        morton_sorted(s, start, mid, dd),
        morton_sorted(s, mid, s.len() as int, dd),
        forall|j: int| start <= j < mid ==> octant_at(#[trigger] s[j].0.coords, dd, ll) < i,
        forall|j: int|
            start <= j < s.len() ==> in_cell(#[trigger] s[j].0.coords, c, dd, ll) && 0 <= s[j].0.coords[0]
                && 0 <= s[j].0.coords[1] && 0 <= s[j].0.coords[2],
        forall|j: int| mid <= j < s.len() ==> in_cell(#[trigger] s[j].0.coords, y, dd, ll + 1),
        octant_at(y, dd, ll) == i,
    ensures
        morton_sorted(s, start, s.len() as int, dd),
        forall|j: int| start <= j < s.len() ==> octant_at(#[trigger] s[j].0.coords, dd, ll) <= i,
{
    assert forall|j: int| mid <= j < s.len() implies octant_at(#[trigger] s[j].0.coords, dd, ll) == i by {
        lemma_in_cell_octants(s[j].0.coords, y, dd, ll + 1);
        assert(octant_at(s[j].0.coords, dd, ll) == octant_at(y, dd, ll));
    }
    assert forall|a: int, b: int| start <= a < b < s.len() implies #[trigger] octant_order_less(
        s[a].0.coords,
        s[b].0.coords,
        dd,
    ) by {
        if a < mid && b >= mid {
            let xa = s[a].0.coords;
            let xb = s[b].0.coords;
            lemma_in_cell_octants(xa, c, dd, ll);
            lemma_in_cell_octants(xb, c, dd, ll);
            assert forall|m: nat| m < ll implies #[trigger] octant_at(xa, dd, m) == octant_at(xb, dd, m) by {
                assert(octant_at(xa, dd, m) == octant_at(c, dd, m));
                assert(octant_at(xb, dd, m) == octant_at(c, dd, m));
            }
            assert(agree_before(xa, xb, dd, ll));
            assert(octant_at(xa, dd, ll) < octant_at(xb, dd, ll));
        }
    }
}

impl Octree {
    /// Appends every leaf below the node of `iter_level` to `nodes`.
    #[verifier::rlimit(100)]
    fn collect_recursive(&self, nodes: &mut Vec<(OctreePos, u32)>, iter_level: IterStruct)
        requires
            self.wf(),
            self.depth <= 30,
            iter_level.cords.depth <= self.depth,
            iter_level.offset % 9 == 0,
            reach(
                self.data@,
                iter_level.cords.coords,
                self.depth as nat,
                iter_level.cords.depth as nat,
            ) == Some(iter_level.offset as int / 9),
            forall|k: int|
                0 <= k < 3 ==> 0 <= #[trigger] iter_level.cords.coords[k]
                    && iter_level.cords.coords[k] >> (self.depth + 1) as u32 == 0i32 && spec_trunc(
                    iter_level.cords.coords[k],
                    (self.depth - iter_level.cords.depth + 1) as u32,
                ) == iter_level.cords.coords[k],
        ensures
            final(nodes)@.len() >= old(nodes)@.len(),
            final(nodes)@.subrange(0, old(nodes)@.len() as int) == old(nodes)@,
            forall|j: int|
                old(nodes)@.len() <= j < final(nodes)@.len() ==> {
                    let e = #[trigger] final(nodes)@[j];
                    &&& is_leaf_entry(self.data@, self.depth as nat, e.0, e.1)
                    &&& e.0.depth >= iter_level.cords.depth
                    &&& in_cell(
                        e.0.coords,
                        iter_level.cords.coords,
                        self.depth as nat,
                        iter_level.cords.depth as nat,
                    )
                },
            forall|pos: OctreePos, v: u32|
                #[trigger] is_leaf_entry(self.data@, self.depth as nat, pos, v) && pos.depth
                    >= iter_level.cords.depth && in_cell(
                    pos.coords,
                    iter_level.cords.coords,
                    self.depth as nat,
                    iter_level.cords.depth as nat,
                ) ==> exists|j: int|
                    old(nodes)@.len() <= j < final(nodes)@.len() && #[trigger] final(nodes)@[j] == (
                    pos,
                    v,
                ),
            morton_sorted(
                final(nodes)@,
                old(nodes)@.len() as int,
                final(nodes)@.len() as int,
                self.depth as nat,
            ),
        decreases self.data@.len() - iter_level.offset,
    {
        let ghost data = self.data@;
        let ghost dd = self.depth as nat;
        let ghost c = iter_level.cords.coords;
        let ghost ll = iter_level.cords.depth as nat;
        let ghost nn = iter_level.offset as int / 9;
        let ghost old_nodes = nodes@;
        proof {
            lemma_reach_bounds(data, c, dd, ll);
            lemma_octant_range_all();
        }
        let header = self.data[iter_level.offset as usize];
        let shift = self.depth - iter_level.cords.depth;
        let mut i: u32 = 0;
        while i < 8
            invariant
                0 <= i <= 8,
                data == self.data@,
                dd == self.depth as nat,
                links_wf(data, dd),
                self.depth <= 30,
                ll <= dd,
                shift as nat == dd - ll,
                c == iter_level.cords.coords,
                ll == iter_level.cords.depth as nat,
                nn == iter_level.offset as int / 9,
                iter_level.offset % 9 == 0,
                0 <= nn < node_count(data),
                header == hdr(data, nn),
                reach(data, c, dd, ll) == Some(nn),
                forall|k: int|
                    0 <= k < 3 ==> 0 <= #[trigger] c[k] && c[k] >> (dd + 1) as u32 == 0i32
                        && spec_trunc(c[k], (dd - ll + 1) as u32) == c[k],
                nodes@.len() >= old_nodes.len(),
                nodes@.subrange(0, old_nodes.len() as int) == old_nodes,
                forall|j: int|
                    old_nodes.len() <= j < nodes@.len() ==> {
                        let e = #[trigger] nodes@[j];
                        &&& is_leaf_entry(data, dd, e.0, e.1)
                        &&& e.0.depth >= ll
                        &&& in_cell(e.0.coords, c, dd, ll)
                    },
                forall|pos: OctreePos, v: u32|
                    #[trigger] is_leaf_entry(data, dd, pos, v) && pos.depth >= ll && in_cell(
                        pos.coords,
                        c,
                        dd,
                        ll,
                    ) && octant_at(pos.coords, dd, ll) < i ==> exists|j: int|
                        old_nodes.len() <= j < nodes@.len() && #[trigger] nodes@[j] == (pos, v),
                morton_sorted(nodes@, old_nodes.len() as int, nodes@.len() as int, dd),
                forall|j: int| old_nodes.len() <= j < nodes@.len() ==> octant_at(#[trigger] nodes@[j].0.coords, dd, ll) < i,
            decreases 8 - i,
        {
            let ghost before = nodes@;
            let perm = oct_perm(i);
            if get_exists(header, i) {
                let scale: i32 = 1 << shift;
                proof {
                    lemma_perm_bits(i as i32);
                    lemma_add_bit(c[0], perm[0], shift, self.depth);
                    lemma_add_bit(c[1], perm[1], shift, self.depth);
                    lemma_add_bit(c[2], perm[2], shift, self.depth);
                }
                let coords = [perm[0] * scale, perm[1] * scale, perm[2] * scale];
                let new_position = [
                    iter_level.cords.coords[0] + coords[0],
                    iter_level.cords.coords[1] + coords[1],
                    iter_level.cords.coords[2] + coords[2],
                ];
                let offset = self.data[(iter_level.offset + 1 + i) as usize];
                let ghost y = new_position;
                proof {
                    lemma_child_corner(data, dd, c, ll, nn, i, perm, y);
                }
                if get_final(header, i) {
                    let cords = OctreePos { coords: new_position, depth: iter_level.cords.depth };
                    nodes.push((cords, offset));
                    proof {
                        lemma_lookup_reach(data, y, dd, nn, ll, ll);
                        assert(is_leaf_entry(data, dd, cords, offset));
                        let now = nodes@;
                        assert forall|pos: OctreePos, v: u32|
                            #[trigger] is_leaf_entry(data, dd, pos, v) && pos.depth >= ll && in_cell(pos.coords, c, dd, ll)
                                && octant_at(pos.coords, dd, ll) == i implies exists|j: int|
                                old_nodes.len() <= j < now.len() && #[trigger] now[j] == (pos, v) by {
                            lemma_leaf_in_child(data, dd, c, ll, nn, i, perm, y, pos, v);
                            assert(now[before.len() as int] == (pos, v));
                        }
                    }
                    proof {
                        let now = nodes@;
                        let start = old_nodes.len() as int;
                        let mid = before.len() as int;
                        assert(now.subrange(0, mid) =~= before);
                        assert forall|a: int, b: int| start <= a < b < mid implies #[trigger] octant_order_less(now[a].0.coords, now[b].0.coords, dd) by {
                            assert(now[a] == now.subrange(0, mid)[a]);
                            assert(now[b] == now.subrange(0, mid)[b]);
                            assert(octant_order_less(before[a].0.coords, before[b].0.coords, dd));
                        }
                        assert forall|j: int| start <= j < mid implies octant_at(#[trigger] now[j].0.coords, dd, ll) < i by {
                            assert(now[j] == now.subrange(0, mid)[j]);
                            assert(octant_at(before[j].0.coords, dd, ll) < i);
                        }
                        assert forall|j: int| start <= j < now.len() implies in_cell(#[trigger] now[j].0.coords, c, dd, ll) && 0 <= now[j].0.coords[0] && 0 <= now[j].0.coords[1] && 0 <= now[j].0.coords[2] by {
                            let e = now[j];
                            assert(is_leaf_entry(data, dd, e.0, e.1));
                            assert(coords_aligned(e.0.coords, dd, e.0.depth as nat));
                            assert(0 <= e.0.coords[0] && 0 <= e.0.coords[1] && 0 <= e.0.coords[2]);
                        }
                        assert forall|j: int| mid <= j < now.len() implies in_cell(#[trigger] now[j].0.coords, y, dd, ll + 1) by {
                            assert(now[j].0.coords == y);
                        }
                        lemma_octant_step_sorted(now, start, mid, dd, ll, c, y, i as int);
                    }
                } else {
                    let cords = OctreePos { coords: new_position, depth: iter_level.cords.depth + 1 };
                    proof {
                        assert(is_link(data, nn, i as int));
                        assert(ll < dd);
                        assert(reach(data, y, dd, ll + 1) == Some(offset as int / 9));
                    }
                    let new_iter = IterStruct { cords, offset };
                    self.collect_recursive(nodes, new_iter);
                    proof {
                        let now = nodes@;
                        assert forall|j: int| old_nodes.len() <= j < now.len() implies {
                            let e = #[trigger] now[j];
                            &&& is_leaf_entry(data, dd, e.0, e.1)
                            &&& e.0.depth >= ll
                            &&& in_cell(e.0.coords, c, dd, ll)
                        } by {
                            if j < before.len() {
                                assert(now[j] == now.subrange(0, before.len() as int)[j]);
                            } else {
                                let e = now[j];
                                assert forall|k: int| 0 <= k < 3 implies spec_trunc(#[trigger] e.0.coords[k], (dd - ll + 1) as u32) == c[k] by {
                                    assert(spec_trunc(e.0.coords[k], (dd - (ll + 1) + 1) as u32) == y[k]);
                                    lemma_trunc_step(e.0.coords[k], shift);
                                }
                            }
                        }
                        assert forall|pos: OctreePos, v: u32|
                            #[trigger] is_leaf_entry(data, dd, pos, v) && pos.depth >= ll && in_cell(pos.coords, c, dd, ll)
                                && octant_at(pos.coords, dd, ll) == i implies exists|j: int|
                                old_nodes.len() <= j < now.len() && #[trigger] now[j] == (pos, v) by {
                            lemma_leaf_in_child(data, dd, c, ll, nn, i, perm, y, pos, v);
                            assert(pos.depth >= ll + 1);
                            let j0 = choose|j: int| before.len() <= j < now.len() && #[trigger] now[j] == (pos, v);
                        }
                    }
                    proof {
                        let now = nodes@;
                        let start = old_nodes.len() as int;
                        let mid = before.len() as int;
                        
                        assert forall|a: int, b: int| start <= a < b < mid implies #[trigger] octant_order_less(now[a].0.coords, now[b].0.coords, dd) by {
                            assert(now[a] == now.subrange(0, mid)[a]);
                            assert(now[b] == now.subrange(0, mid)[b]);
                            assert(octant_order_less(before[a].0.coords, before[b].0.coords, dd));
                        }
                        assert forall|j: int| start <= j < mid implies octant_at(#[trigger] now[j].0.coords, dd, ll) < i by {
                            assert(now[j] == now.subrange(0, mid)[j]);
                            assert(octant_at(before[j].0.coords, dd, ll) < i);
                        }
                        assert forall|j: int| start <= j < now.len() implies in_cell(#[trigger] now[j].0.coords, c, dd, ll) && 0 <= now[j].0.coords[0] && 0 <= now[j].0.coords[1] && 0 <= now[j].0.coords[2] by {
                            let e = now[j];
                            assert(is_leaf_entry(data, dd, e.0, e.1));
                            assert(coords_aligned(e.0.coords, dd, e.0.depth as nat));
                            assert(0 <= e.0.coords[0] && 0 <= e.0.coords[1] && 0 <= e.0.coords[2]);
                        }
                        assert forall|j: int| mid <= j < now.len() implies in_cell(#[trigger] now[j].0.coords, y, dd, ll + 1) by {
                            assert(now[j] == now[j]);
                        }
                        lemma_octant_step_sorted(now, start, mid, dd, ll, c, y, i as int);
                    }
                }
            } else {
                proof {
                    assert forall|pos: OctreePos, v: u32|
                        #[trigger] is_leaf_entry(data, dd, pos, v) && pos.depth >= ll && in_cell(pos.coords, c, dd, ll)
                            implies octant_at(pos.coords, dd, ll) != i by {
                        if octant_at(pos.coords, dd, ll) == i {
                            let y = [
                                (c[0] + (perm[0] << shift)) as i32,
                                (c[1] + (perm[1] << shift)) as i32,
                                (c[2] + (perm[2] << shift)) as i32,
                            ];
                            lemma_perm_bits(i as i32);
                            lemma_add_bit(c[0], perm[0], shift, self.depth);
                            lemma_add_bit(c[1], perm[1], shift, self.depth);
                            lemma_add_bit(c[2], perm[2], shift, self.depth);
                            assert(y[0] == c[0] + (perm[0] << shift));
                            assert(y[1] == c[1] + (perm[1] << shift));
                            assert(y[2] == c[2] + (perm[2] << shift));
                            lemma_leaf_in_child(data, dd, c, ll, nn, i, perm, y, pos, v);
                        }
                    }
                }
            }
            proof {
                let now = nodes@;
                assert forall|j: int| 0 <= j < old_nodes.len() implies now[j] == old_nodes[j] by {
                    assert(now[j] == now.subrange(0, before.len() as int)[j]);
                    assert(before[j] == before.subrange(0, old_nodes.len() as int)[j]);
                }
                assert(now.subrange(0, old_nodes.len() as int) =~= old_nodes);
                assert forall|pos: OctreePos, v: u32|
                    #[trigger] is_leaf_entry(data, dd, pos, v) && pos.depth >= ll && in_cell(pos.coords, c, dd, ll)
                        && octant_at(pos.coords, dd, ll) < i implies exists|j: int|
                        old_nodes.len() <= j < now.len() && #[trigger] now[j] == (pos, v) by {
                    let j0 = choose|j: int| old_nodes.len() <= j < before.len() && #[trigger] before[j] == (pos, v);
                    assert(now[j0] == now.subrange(0, before.len() as int)[j0]);
                }
            }
            i += 1;
        }
    }
}


/// `r` lists the leaves of the tree: each entry is a leaf, every leaf is
/// listed, in Morton order, and no cell twice.
pub open spec fn lists_leaves(data: Seq<u32>, depth: nat, r: Seq<(OctreePos, u32)>) -> bool {
    &&& forall|j: int| 0 <= j < r.len() ==> is_leaf_entry(data, depth, (#[trigger] r[j]).0, r[j].1)
    &&& forall|pos: OctreePos, v: u32| #[trigger]
        is_leaf_entry(data, depth, pos, v) ==> exists|j: int| 0 <= j < r.len() && #[trigger] r[j] == (pos, v)
    &&& morton_sorted(r, 0, r.len() as int, depth)
    &&& distinct_cells(r)
}

impl Octree {
    /// Every leaf of the tree: the corner and level of its cell, and the
    /// packed colour it holds. Each returned pair is a leaf, and every
    /// leaf is returned.
    pub fn collect_nodes(&self) -> (r: Vec<(OctreePos, u32)>)
        requires
            self.wf(),
            self.depth <= 30,
        ensures
            forall|j: int|
                0 <= j < r@.len() ==> is_leaf_entry(
                    self.data@,
                    self.depth as nat,
                    (#[trigger] r@[j]).0,
                    r@[j].1,
                ),
            forall|pos: OctreePos, v: u32| #[trigger]
                is_leaf_entry(self.data@, self.depth as nat, pos, v) ==> exists|j: int|
                    0 <= j < r@.len() && #[trigger] r@[j] == (pos, v),
            morton_sorted(r@, 0, r@.len() as int, self.depth as nat),
            distinct_cells(r@),
            lists_leaves(self.data@, self.depth as nat, r@),
    {
        let length = self.data.len() / 9;
        let mut collected: Vec<(OctreePos, u32)> = Vec::with_capacity(length);
        let cords = OctreePos { coords: [0, 0, 0], depth: 0 };
        let first_iter = IterStruct { cords, offset: 0 };
        proof {
            let d = self.depth;
            assert(0i32 >> (d + 1) as u32 == 0i32 && (0i32 >> (d + 1) as u32) << (d + 1) as u32 == 0i32)
                by (bit_vector);
        }
        self.collect_recursive(&mut collected, first_iter);
        proof {
            let r = collected@;
            assert forall|a: int, b: int| 0 <= a < b < r.len() implies #[trigger] r[a].0 != #[trigger] r[b].0 by {
                assert(octant_order_less(r[a].0.coords, r[b].0.coords, self.depth as nat));
                lemma_octant_order_distinct(r[a].0.coords, r[b].0.coords, self.depth as nat);
            }
            assert forall|pos: OctreePos, v: u32| #[trigger]
                is_leaf_entry(self.data@, self.depth as nat, pos, v) implies in_cell(
                pos.coords,
                [0i32, 0i32, 0i32],
                self.depth as nat,
                0,
            ) by {
                let d = self.depth;
                assert forall|k: int| 0 <= k < 3 implies spec_trunc(#[trigger] pos.coords[k], (d + 1) as u32) == [0i32, 0i32, 0i32][k] by {
                    let x = pos.coords[k];
                    assert(x >> (d + 1) as u32 == 0i32 ==> (x >> (d + 1) as u32) << (d + 1) as u32 == 0i32)
                        by (bit_vector);
                }
            }
        }
        collected
    }
}


/// Read after write: once `v` is inserted for the cell of `coords` on
/// level `t`, that cell, and every smaller cell inside it, holds `v` as
/// a leaf on level `t`.
pub proof fn lemma_insert_then_lookup(
    old: Seq<u32>,
    coords: [i32; 3],
    depth: nat,
    t: nat,
    v: u32,
    c: [i32; 3],
    tt: nat,
)
    requires
        t <= tt,
        same_prefix(c, coords, depth, t),
    ensures
        lookup_after_insert(old, coords, depth, t, v, c, tt) == (Lookup::Leaf { level: t, value: v }),
{
}

/// The first value stored for a cell is kept: after an insert for the
/// cell of `coords` on level `t`, a second insert for the same cell, of
/// any colour, leaves the buffer as it is.
pub proof fn lemma_second_insert_keeps_first(
    d0: Seq<u32>,
    d1: Seq<u32>,
    d2: Seq<u32>,
    coords: [i32; 3],
    depth: nat,
    t: nat,
    v: u32,
    w: u32,
)
    requires
        t <= depth,
        insert_effect(d0, d1, coords, depth, t, v),
        insert_effect(d1, d2, coords, depth, t, w),
    ensures
        d2 == d1,
{
    if lookup(d0, coords, depth, t) is Empty {
        assert(lookup(d1, coords, depth, t) == lookup_after_insert(d0, coords, depth, t, v, coords, t));
        assert(same_prefix(coords, coords, depth, t));
    }
}

/// An insertion leaves every cell that neither contains the inserted
/// cell nor lies inside it as it was.
pub proof fn lemma_insert_frame(
    old: Seq<u32>,
    coords: [i32; 3],
    depth: nat,
    t: nat,
    v: u32,
    c: [i32; 3],
    tt: nat,
)
    requires
        !same_prefix(c, coords, depth, if tt < t { tt } else { t }),
    ensures
        lookup_after_insert(old, coords, depth, t, v, c, tt) == lookup(old, c, depth, tt),
{
}

/// A cell inserted at its corner is one of the leaves that
/// `collect_nodes` returns.
pub proof fn lemma_inserted_leaf_collected(
    old: Seq<u32>,
    new: Seq<u32>,
    depth: nat,
    pos: OctreePos,
    v: u32,
)
    requires
        pos.depth <= depth,
        coords_aligned(pos.coords, depth, pos.depth as nat),
        forall|c: [i32; 3], tt: nat|
            tt <= depth ==> #[trigger] lookup(new, c, depth, tt) == lookup_after_insert(
                old,
                pos.coords,
                depth,
                pos.depth as nat,
                v,
                c,
                tt,
            ),
    ensures
        is_leaf_entry(new, depth, pos, v),
{
    assert(lookup(new, pos.coords, depth, pos.depth as nat) == lookup_after_insert(
        old,
        pos.coords,
        depth,
        pos.depth as nat,
        v,
        pos.coords,
        pos.depth as nat,
    ));
}

/// A tree in which every cell is empty has no leaves.
pub proof fn lemma_empty_has_no_leaves(data: Seq<u32>, depth: nat)
    requires
        forall|c: [i32; 3], t: nat| #[trigger] lookup(data, c, depth, t) == Lookup::Empty,
    ensures
        forall|pos: OctreePos, v: u32| !#[trigger] is_leaf_entry(data, depth, pos, v),
{
    assert forall|pos: OctreePos, v: u32| !#[trigger] is_leaf_entry(data, depth, pos, v) by {
        assert(lookup(data, pos.coords, depth, pos.depth as nat) == Lookup::Empty);
    }
}

} // verus!
