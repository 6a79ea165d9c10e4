//! Bit facts about non-negative coordinates.
use vstd::prelude::*;

verus! {

/// `x` with its lowest `s` bits cleared.
pub open spec fn spec_trunc(x: i32, s: u32) -> i32 {
    (x >> s) << s
}

/// Adding bit `s` to a coordinate whose bits below `s + 1` are clear:
/// the result has its bits below `s` clear, bit `s` is the added bit,
/// and clearing bits below `s + 1` gives back the coordinate.
pub proof fn lemma_add_bit(x: i32, b: i32, s: u32, d: u32)
    requires
        0 <= x,
        s <= d <= 30,
        x >> (d + 1) as u32 == 0i32,
        spec_trunc(x, (s + 1) as u32) == x,
        b == 0i32 || b == 1i32,
    ensures
        0 <= x + (b << s) <= i32::MAX,
        (x + (b << s)) as i32 >> (d + 1) as u32 == 0i32,
        spec_trunc((x + (b << s)) as i32, s) == (x + (b << s)) as i32,
        spec_trunc((x + (b << s)) as i32, (s + 1) as u32) == x,
        ((x + (b << s)) as i32 >> s) & 1i32 == b,
        b * (1i32 << s) == b << s,
{
    assert(0 <= x + (b << s) <= i32::MAX) by (bit_vector)
        requires
            0 <= x,
            s <= d <= 30,
            x >> (d + 1) as u32 == 0i32,
            (x >> (s + 1) as u32) << (s + 1) as u32 == x,
            b == 0i32 || b == 1i32,
    ;
    assert({
        let y = (x + (b << s)) as i32;
        &&& y >> (d + 1) as u32 == 0i32
        &&& (y >> s) << s == y
        &&& (y >> (s + 1) as u32) << (s + 1) as u32 == x
        &&& (y >> s) & 1i32 == b
        &&& b * (1i32 << s) == b << s
    }) by (bit_vector)
        requires
            0 <= x,
            s <= d <= 30,
            x >> (d + 1) as u32 == 0i32,
            (x >> (s + 1) as u32) << (s + 1) as u32 == x,
            b == 0i32 || b == 1i32,
    ;
}

/// Bits at or above `s` survive clearing the bits below `s`.
pub proof fn lemma_trunc_bit(x: i32, s: u32, t: u32)
    requires
        0 <= x,
        s <= t < 32,
    ensures
        (spec_trunc(x, s) >> t) & 1i32 == (x >> t) & 1i32,
        0 <= spec_trunc(x, s) <= x,
{
    assert(((x >> s) << s) >> t & 1i32 == (x >> t) & 1i32 && 0 <= (x >> s) << s <= x)
        by (bit_vector)
        requires
            0 <= x,
            s <= t < 32,
    ;
}

/// Clearing the bits below `s` is clearing the bits below `s + 1` and
/// putting bit `s` back.
pub proof fn lemma_trunc_step(x: i32, s: u32)
    requires
        0 <= x,
        s < 31,
    ensures
        spec_trunc(x, s) == spec_trunc(x, (s + 1) as u32) + (((x >> s) & 1i32) << s),
        spec_trunc(spec_trunc(x, s), (s + 1) as u32) == spec_trunc(x, (s + 1) as u32),
{
    assert((x >> s) << s == ((x >> (s + 1) as u32) << (s + 1) as u32) + (((x >> s) & 1i32) << s)
        && (((x >> s) << s) >> (s + 1) as u32) << (s + 1) as u32 == (x >> (s + 1) as u32) << (s
        + 1) as u32) by (bit_vector)
        requires
            0 <= x,
            s < 31,
    ;
}

} // verus!
