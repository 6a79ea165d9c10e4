//! Bit layout of an octree node header: bits `0..8` mark the octants
//! that exist, bits `8..16` mark the octants that are final (hold a
//! colour rather than a pointer) and the top byte holds a tag.
use vstd::prelude::*;

verus! {

/// First bit of the "exists" flags.
pub const EXISTS_OFFSET: u32 = 0;
/// First bit of the "final" flags.
pub const FINAL_OFFSET: u32 = 8;
/// First bit of the header tag.
pub const TAG_OFFSET: u32 = 24;
/// The tag stored in the top byte of every header.
pub const HEADER_TAG: u8 = 68;

/// Bit `i` of `header`.
pub open spec fn spec_bit(header: u32, i: u32) -> bool {
    (header >> i) & 1u32 == 1u32
}

/// Whether octant `idx` exists according to `header`.
pub open spec fn spec_exists(header: u32, idx: u32) -> bool {
    spec_bit(header, idx)
}

/// Whether octant `idx` is final according to `header`.
pub open spec fn spec_final(header: u32, idx: u32) -> bool {
    spec_bit(header, (idx + 8) as u32)
}

/// The little-endian packing of four bytes into a `u32`.
pub open spec fn spec_from_color(color: [u8; 4]) -> u32 {
    (color[0] as int + color[1] as int * 0x100 + color[2] as int * 0x10000 + color[3] as int
        * 0x1000000) as u32
}

/// The four little-endian bytes of a `u32`.
pub open spec fn spec_to_color(v: u32) -> [u8; 4] {
    [(v % 0x100) as u8, ((v / 0x100) % 0x100) as u8, ((v / 0x10000) % 0x100) as u8, (v
        / 0x1000000) as u8]
}

/// Packs a colour into a `u32`, red in the lowest byte.
pub fn from_color(color: [u8; 4]) -> (r: u32)
    ensures
        r == spec_from_color(color),
{
    let r = color[0] as u32;
    let g = color[1] as u32;
    let b = color[2] as u32;
    let a = color[3] as u32;
    r + g * 0x100 + b * 0x10000 + a * 0x1000000
}

/// Unpacks a `u32` into a colour, red from the lowest byte.
pub fn to_color(offset: u32) -> (r: [u8; 4])
    ensures
        r == spec_to_color(offset),
{
    [
        (offset % 0x100) as u8,
        ((offset / 0x100) % 0x100) as u8,
        ((offset / 0x10000) % 0x100) as u8,
        (offset / 0x1000000) as u8,
    ]
}

/// Packing and unpacking a colour are inverse to each other.
pub proof fn lemma_color_roundtrip(color: [u8; 4], v: u32)
    ensures
        spec_to_color(spec_from_color(color)) == color,
        spec_from_color(spec_to_color(v)) == v,
{
    assert(spec_to_color(spec_from_color(color)) =~= color);
    assert(spec_from_color(spec_to_color(v)) == v);
}

/// Sets the tag byte of a header; the flag bits are left as they are.
pub fn set_header_tag(header: &mut u32)
    ensures
        *final(header) == *old(header) | ((HEADER_TAG as u32) << TAG_OFFSET),
        forall|i: u32| i < 16 ==> spec_bit(*final(header), i) == spec_bit(*old(header), i),
{
    let ghost h = *header;
    *header |= (HEADER_TAG as u32) << TAG_OFFSET;
    proof {
        let h2 = *header;
        assert forall|i: u32| i < 16 implies spec_bit(h2, i) == spec_bit(h, i) by {
            assert((68u32 << 24u32) == 0x44000000u32) by (bit_vector);
            assert(h2 == h | 0x44000000u32);
            assert(i < 16 ==> ((h | 0x44000000u32) >> i) & 1u32 == (h >> i) & 1u32)
                by (bit_vector);
        }
    }
}

/// Whether octant `idx` exists in `header`.
pub fn get_exists(header: u32, idx: u32) -> (r: bool)
    requires
        idx < 32,
    ensures
        r == spec_exists(header, idx),
{
    let x = header >> (idx + EXISTS_OFFSET);
    assert((x & 1u32 != 0u32) == (x & 1u32 == 1u32)) by (bit_vector);
    (x & 1) != 0
}

/// Marks octant `idx` as existing; no other bit changes.
pub fn set_exists(header: &mut u32, idx: u32)
    requires
        idx < 32,
    ensures
        *final(header) == *old(header) | (1u32 << idx),
        forall|i: u32|
            i < 32 ==> #[trigger] spec_bit(*final(header), i) == (i == idx || spec_bit(
                *old(header),
                i,
            )),
{
    let ghost h = *header;
    *header |= 1 << (idx + EXISTS_OFFSET);
    proof {
        lemma_set_bit(h, idx);
    }
}

/// Whether octant `idx` is final in `header`.
pub fn get_final(header: u32, idx: u32) -> (r: bool)
    requires
        idx < 24,
    ensures
        r == spec_final(header, idx),
{
    let x = header >> (idx + FINAL_OFFSET);
    assert((x & 1u32 != 0u32) == (x & 1u32 == 1u32)) by (bit_vector);
    (x & 1) != 0
}

/// Marks octant `idx` as final; no other bit changes.
pub fn set_final(header: &mut u32, idx: u32)
    requires
        idx < 24,
    ensures
        *final(header) == *old(header) | (1u32 << (idx + 8) as u32),
        forall|i: u32|
            i < 32 ==> #[trigger] spec_bit(*final(header), i) == (i == idx + 8 || spec_bit(
                *old(header),
                i,
            )),
{
    let ghost h = *header;
    *header |= 1 << (idx + FINAL_OFFSET);
    proof {
        lemma_set_bit(h, (idx + 8) as u32);
    }
}

/// Setting bit `k` of `h` sets that bit and leaves every other bit alone.
pub proof fn lemma_set_bit(h: u32, k: u32)
    requires
        k < 32,
    ensures
        forall|i: u32|
            i < 32 ==> #[trigger] spec_bit(h | (1u32 << k), i) == (i == k || spec_bit(h, i)),
{
    assert forall|i: u32| i < 32 implies #[trigger] spec_bit(h | (1u32 << k), i) == (i == k
        || spec_bit(h, i)) by {
        assert(i < 32 && k < 32 ==> (((h | (1u32 << k)) >> i) & 1u32 == 1u32) == (i == k || (h
            >> i) & 1u32 == 1u32)) by (bit_vector);
    }
}

} // verus!
