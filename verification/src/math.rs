//! Integer colour arithmetic.
use vstd::prelude::*;

verus! {

/// One 8-bit channel of the product of two colours: `a * b / 255`,
/// rounded down.
pub open spec fn spec_mul_channel(a: u8, b: u8) -> int {
    (a as int * b as int) / 255
}

/// The channel-wise product of two colours, each channel scaled back to
/// `0..=255`.
pub open spec fn spec_multiply_colors(c1: [u8; 4], c2: [u8; 4]) -> [u8; 4] {
    [
        spec_mul_channel(c1[0], c2[0]) as u8,
        spec_mul_channel(c1[1], c2[1]) as u8,
        spec_mul_channel(c1[2], c2[2]) as u8,
        spec_mul_channel(c1[3], c2[3]) as u8,
    ]
}

fn mul_channel(a: u8, b: u8) -> (r: u8)
    ensures
        r as int * 255 <= (a as int) * (b as int) < (r as int + 1) * 255,
        r as int == spec_mul_channel(a, b),
{
    proof {
        lemma_mul_channel_rounds_down(a, b);
    }
    assert(0 <= a as int * b as int <= 255 * 255) by (nonlinear_arith)
        requires
            a <= 255,
            b <= 255,
    ;
    let p: u16 = a as u16 * b as u16;
    (p / 255) as u8
}

/// Multiplies two colours channel by channel: every channel of the result
/// is `c1[k] * c2[k] / 255`, rounded down.
pub fn multiply_colors(c1: [u8; 4], c2: [u8; 4]) -> (r: [u8; 4])
    ensures
        r == spec_multiply_colors(c1, c2),
        forall|k: int| 0 <= k < 4 ==> r[k] as int == spec_mul_channel(c1[k], c2[k]),
        forall|k: int|
            0 <= k < 4 ==> #[trigger] r[k] as int * 255 <= (c1[k] as int) * (c2[k] as int) < (r[k] as int
                + 1) * 255,
{
    let r = [
        mul_channel(c1[0], c2[0]),
        mul_channel(c1[1], c2[1]),
        mul_channel(c1[2], c2[2]),
        mul_channel(c1[3], c2[3]),
    ];
    assert(r =~= spec_multiply_colors(c1, c2));
    r
}

/// A channel of a product is the product of the two channels divided by
/// 255 and rounded down: it is the largest `r` with `r * 255 <= a * b`,
/// and it fits in a byte.
pub proof fn lemma_mul_channel_rounds_down(a: u8, b: u8)
    ensures
        spec_mul_channel(a, b) * 255 <= (a as int) * (b as int) < (spec_mul_channel(a, b) + 1) * 255,
        0 <= spec_mul_channel(a, b) <= 255,
{
    let x = a as int;
    let y = b as int;
    assert((x * y / 255) * 255 <= x * y < (x * y / 255 + 1) * 255 && 0 <= x * y / 255 <= 255)
        by (nonlinear_arith)
        requires
            0 <= x <= 255,
            0 <= y <= 255,
    ;
}

/// Every channel of the product of two colours is the product of the two
/// channels divided by 255 and rounded down.
pub proof fn lemma_multiply_colors_channels(c1: [u8; 4], c2: [u8; 4])
    ensures
        forall|k: int|
            0 <= k < 4 ==> #[trigger] spec_multiply_colors(c1, c2)[k] as int * 255 <= (c1[k] as int)
                * (c2[k] as int) < (spec_multiply_colors(c1, c2)[k] as int + 1) * 255,
{
    assert forall|k: int| 0 <= k < 4 implies #[trigger] spec_multiply_colors(c1, c2)[k] as int * 255
        <= (c1[k] as int) * (c2[k] as int) < (spec_multiply_colors(c1, c2)[k] as int + 1) * 255 by {
        lemma_mul_channel_rounds_down(c1[k], c2[k]);
        assert(spec_multiply_colors(c1, c2)[k] as int == spec_mul_channel(c1[k], c2[k]));
    }
}

/// Multiplying colours does not depend on their order.
pub proof fn lemma_multiply_colors_commutative(c1: [u8; 4], c2: [u8; 4])
    ensures
        spec_multiply_colors(c1, c2) == spec_multiply_colors(c2, c1),
{
    assert forall|k: int| 0 <= k < 4 implies c1[k] as int * c2[k] as int == c2[k] as int * c1[k] as int by {
        vstd::arithmetic::mul::lemma_mul_is_commutative(c1[k] as int, c2[k] as int);
    }
    assert(spec_multiply_colors(c1, c2) =~= spec_multiply_colors(c2, c1));
}

/// Opaque white leaves a colour unchanged.
pub proof fn lemma_multiply_colors_white(c: [u8; 4])
    ensures
        spec_multiply_colors(c, [255, 255, 255, 255]) == c,
        spec_multiply_colors([255, 255, 255, 255], c) == c,
{
    assert(spec_multiply_colors(c, [255, 255, 255, 255]) =~= c);
    lemma_multiply_colors_commutative(c, [255, 255, 255, 255]);
}

/// Tinting only darkens: no channel of the product exceeds that channel
/// of either factor.
pub proof fn lemma_multiply_colors_darkens(c1: [u8; 4], c2: [u8; 4])
    ensures
        forall|k: int|
            0 <= k < 4 ==> #[trigger] spec_multiply_colors(c1, c2)[k] <= c1[k]
                && spec_multiply_colors(c1, c2)[k] <= c2[k],
{
    assert forall|k: int| 0 <= k < 4 implies #[trigger] spec_multiply_colors(c1, c2)[k] <= c1[k]
        && spec_multiply_colors(c1, c2)[k] <= c2[k] by {
        let a = c1[k] as int;
        let b = c2[k] as int;
        assert(a * b / 255 <= a && a * b / 255 <= b && 0 <= a * b / 255 <= 255) by (nonlinear_arith)
            requires
                0 <= a <= 255,
                0 <= b <= 255,
        ;
    }
}

} // verus!
