//! The static MagicaVoxel palette: 6 shades of red, 7 shades of green and
//! 6 shades of blue packed into the palette indices `1..=252`; index 0 is
//! left for "air".
use vstd::prelude::*;

verus! {

/// Number of red shades in the static palette.
pub const R_STEPS: u16 = 6;
/// Number of green shades in the static palette.
pub const G_STEPS: u16 = 7;
/// Number of blue shades in the static palette.
pub const B_STEPS: u16 = 6;

/// The shade (`0..steps`) nearest to an 8-bit channel value.
pub open spec fn spec_shade(c: u8, steps: int) -> int {
    (c as int * (steps - 1) + 127) / 255
}

/// The 8-bit value that a shade (`0..steps`) stands for.
pub open spec fn spec_unshade(idx: int, steps: int) -> int {
    (idx * 255) / (steps - 1)
}

/// The palette index of a colour: its red, green and blue shades packed
/// in mixed radix `6 * 7 * 6`, plus one. Alpha is ignored.
pub open spec fn spec_encode_color(color: [u8; 4]) -> u8 {
    (spec_shade(color[0], 6) + spec_shade(color[1], 7) * 6 + spec_shade(color[2], 6) * 42
        + 1) as u8
}

/// The colour that a palette index stands for; index 0 is transparent
/// black.
pub open spec fn spec_decode_color(byte: u8) -> [u8; 4] {
    if byte == 0 {
        [0, 0, 0, 0]
    } else {
        let val = byte - 1;
        [
            spec_unshade(val % 6, 6) as u8,
            spec_unshade((val / 6) % 7, 7) as u8,
            spec_unshade((val / 42) % 6, 6) as u8,
            255,
        ]
    }
}

proof fn lemma_shade_bounds(c: u8)
    ensures
        0 <= spec_shade(c, 6) <= 5,
        0 <= spec_shade(c, 7) <= 6,
{
}

/// Maps an RGBA colour to a static palette index in `1..=252`.
/// Index 0 is reserved for "air" in MagicaVoxel, so every index is
/// shifted by one.
pub fn encode_color(color: [u8; 4]) -> (r: u8)
    ensures
        r == spec_encode_color(color),
        1 <= r <= 252,
{
    let r = color[0] as u16;
    let g = color[1] as u16;
    let b = color[2] as u16;

    let r_idx = (r * 5 + 127) / 255;
    let g_idx = (g * 6 + 127) / 255;
    let b_idx = (b * 5 + 127) / 255;
    proof {
        lemma_shade_bounds(color[0]);
        lemma_shade_bounds(color[1]);
        lemma_shade_bounds(color[2]);
    }

    let packed = r_idx + (g_idx * R_STEPS) + (b_idx * 42);

    (packed + 1) as u8
}

/// Maps a palette index back to the RGBA colour it stands for (index 0
/// is transparent black).
pub fn decode_color(byte: u8) -> (r: [u8; 4])
    ensures
        r == spec_decode_color(byte),
{
    if byte == 0 {
        return [0, 0, 0, 0];
    }
    let val = (byte - 1) as u16;

    let r_idx = val % R_STEPS;
    let g_idx = (val / R_STEPS) % G_STEPS;
    let b_idx = (val / 42) % B_STEPS;

    // scale back to 0..255
    let r = (r_idx * 255) / 5;
    let g = (g_idx * 255) / 6;
    let b = (b_idx * 255) / 5;

    [r as u8, g as u8, b as u8, 255]
}

/// Encoding never yields the "air" index 0, and stays below 253.
pub proof fn lemma_encode_in_palette(color: [u8; 4])
    ensures
        1 <= spec_encode_color(color) <= 252,
{
    lemma_shade_bounds(color[0]);
    lemma_shade_bounds(color[1]);
    lemma_shade_bounds(color[2]);
}

proof fn lemma_unshade_shade(k: int, steps: int)
    requires
        steps == 6 || steps == 7,
        0 <= k < steps,
    ensures
        0 <= spec_unshade(k, steps) <= 255,
        spec_shade(spec_unshade(k, steps) as u8, steps) == k,
{
    if steps == 6 {
        assert(0 <= k < 6);
        if k == 0 {} else if k == 1 {} else if k == 2 {} else if k == 3 {} else if k == 4 {} else {}
    } else {
        if k == 0 {} else if k == 1 {} else if k == 2 {} else if k == 3 {} else if k == 4 {} else if k == 5 {} else {}
    }
}

/// Every palette entry in `1..=252` is encoded back to its own index:
/// the static palette is exactly what `encode_color` addresses.
pub proof fn lemma_encode_decode_roundtrip(byte: u8)
    requires
        1 <= byte <= 252,
    ensures
        spec_encode_color(spec_decode_color(byte)) == byte,
{
    let val = (byte - 1) as int;
    let r = val % 6;
    let g = (val / 6) % 7;
    let b = (val / 42) % 6;
    lemma_unshade_shade(r, 6);
    lemma_unshade_shade(g, 7);
    lemma_unshade_shade(b, 6);
    assert(val == r + g * 6 + b * 42);
}

/// The distance between two integers.
pub open spec fn dist(a: int, b: int) -> int {
    if a >= b {
        a - b
    } else {
        b - a
    }
}

/// Whether `level` is a shade (of `steps`) whose value is nearest to the
/// channel value `c`.
pub open spec fn is_nearest_shade(c: u8, steps: int, level: int) -> bool {
    &&& 0 <= level < steps
    &&& forall|l: int|
        0 <= l < steps ==> dist(spec_unshade(level, steps), c as int) <= dist(
            #[trigger] spec_unshade(l, steps),
            c as int,
        )
}

proof fn lemma_shade_nearest(c: u8, steps: int)
    requires
        steps == 6 || steps == 7,
    ensures
        is_nearest_shade(c, steps, spec_shade(c, steps)),
        dist(spec_unshade(spec_shade(c, steps), steps), c as int) <= if steps == 6 {
            25int
        } else {
            21int
        },
{
    let s = spec_shade(c, steps);
    lemma_shade_bounds(c);
    if steps == 6 {
        assert(s * 255 <= c as int * 5 + 127 < s * 255 + 255);
        assert(spec_unshade(s, 6) == 51 * s);
        assert forall|l: int| 0 <= l < 6 implies dist(spec_unshade(s, 6), c as int) <= dist(
            #[trigger] spec_unshade(l, 6),
            c as int,
        ) by {
            assert(spec_unshade(l, 6) == 51 * l);
        }
    } else {
        assert(s * 255 <= c as int * 6 + 127 < s * 255 + 255);
        assert forall|l: int| 0 <= l < 7 implies dist(spec_unshade(s, 7), c as int) <= dist(
            #[trigger] spec_unshade(l, 7),
            c as int,
        ) by {
            if s == 0 {} else if s == 1 {} else if s == 2 {} else if s == 3 {} else if s == 4 {} else if s == 5 {} else {}
        }
        if s == 0 {} else if s == 1 {} else if s == 2 {} else if s == 3 {} else if s == 4 {} else if s == 5 {} else {}
    }
}

/// Decoding the palette index of a colour gives back, on each channel,
/// the shade nearest to the original value: within 25 on red and blue and
/// within 21 on green, fully opaque.
pub proof fn lemma_decode_encode_close(color: [u8; 4])
    ensures
        ({
            let d = spec_decode_color(spec_encode_color(color));
            &&& d[0] == spec_unshade(spec_shade(color[0], 6), 6)
            &&& d[1] == spec_unshade(spec_shade(color[1], 7), 7)
            &&& d[2] == spec_unshade(spec_shade(color[2], 6), 6)
            &&& is_nearest_shade(color[0], 6, spec_shade(color[0], 6))
            &&& is_nearest_shade(color[1], 7, spec_shade(color[1], 7))
            &&& is_nearest_shade(color[2], 6, spec_shade(color[2], 6))
            &&& -25 <= d[0] - color[0] <= 25
            &&& -21 <= d[1] - color[1] <= 21
            &&& -25 <= d[2] - color[2] <= 25
            &&& d[3] == 255
        }),
{
    let r = spec_shade(color[0], 6);
    let g = spec_shade(color[1], 7);
    let b = spec_shade(color[2], 6);
    lemma_shade_bounds(color[0]);
    lemma_shade_bounds(color[1]);
    lemma_shade_bounds(color[2]);
    let byte = spec_encode_color(color);
    let val = (byte - 1) as int;
    assert(val == r + g * 6 + b * 42);
    assert(val % 6 == r);
    assert((val / 6) % 7 == g);
    assert((val / 42) % 6 == b);
    lemma_shade_nearest(color[0], 6);
    lemma_shade_nearest(color[1], 7);
    lemma_shade_nearest(color[2], 6);
    lemma_unshade_shade(r, 6);
    lemma_unshade_shade(g, 7);
    lemma_unshade_shade(b, 6);
}

} // verus!
