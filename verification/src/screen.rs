//! What is drawn where.

use vstd::prelude::*;

use crate::words::{abs, absolute, below, is_nan, less, INFINITY};

verus! {

/// The word of minus infinity.
pub const MINUS_INFINITY: u32 = 0xff80_0000;

/// The word of `600.0`: a screen with less width, in pixels, is narrow.
pub const NARROW: u32 = 0x4416_0000;

/// The word of `80.0`: how many pixels a metre takes.
pub const SCALE: u32 = 0x42a0_0000;

/// The word of the product of `80.0` and `0.38`: how many pixels a metre takes on a
/// narrow screen.
pub const NARROW_SCALE: u32 = 0x41f3_3333;

/// The word of `156.0`: how many metres from the ship the minimap shows obstacles.
pub const MINIMAP_REACH: u32 = 0x431c_0000;

/// Whether everything among `xs` that is a number lies to the left of `x`. Nothing
/// lies at minus infinity, so it lies to the left of what is above that.
pub open spec fn all_left_of(xs: Seq<u32>, x: u32) -> bool {
    below(MINUS_INFINITY, x) && forall|i: int|
        0 <= i < xs.len() ==> is_nan(#[trigger] xs[i]) || below(xs[i], x)
}

/// Whether everything among `xs` that is a number lies to the right of `x`. Nothing
/// lies at infinity, so it lies to the right of what is below that.
pub open spec fn all_right_of(xs: Seq<u32>, x: u32) -> bool {
    below(x, INFINITY) && forall|i: int|
        0 <= i < xs.len() ==> is_nan(#[trigger] xs[i]) || below(x, xs[i])
}

/// How many pixels a metre takes on a screen of this width: on a narrow one fewer, so
/// that more of the cave fits.
pub fn view_scale(width: u32) -> (r: u32)
    ensures
        r == (if below(width, NARROW) { NARROW_SCALE } else { SCALE }),
        below(width, 0x4416_0000) ==> r == 0x41f3_3333,
        !below(width, 0x4416_0000) ==> r == 0x42a0_0000,
{
    if less(width, NARROW) {
        NARROW_SCALE
    } else {
        SCALE
    }
}

/// Whether a polygon with vertices at `xs` lies beyond one of the ends `low` and
/// `high`.
pub fn hull_off_screen(xs: &Vec<u32>, low: u32, high: u32) -> (r: bool)
    ensures
        r == (all_left_of(xs@, low) || all_right_of(xs@, high)),
{
    let mut left: bool = less(MINUS_INFINITY, low);
    let mut right: bool = less(high, INFINITY);
    let mut i: usize = 0;
    while i < xs.len()
        invariant
            i <= xs@.len(),
            left == all_left_of(xs@.take(i as int), low),
            right == all_right_of(xs@.take(i as int), high),
        decreases xs@.len() - i,
    {
        let x: u32 = xs[i];
        let number: bool = abs(x) <= INFINITY;
        left = left && (!number || less(x, low));
        right = right && (!number || less(high, x));
        proof {
            let s = xs@.take(i as int);
            let t = xs@.take(i + 1);
            assert(t == s.push(x));
            assert(t[i as int] == x);
            assert(forall|j: int| 0 <= j < i ==> #[trigger] s[j] == t[j]);
        }
        i = i + 1;
    }
    assert(xs@.take(i as int) == xs@);
    left || right
}

/// Whether a segment from `x0` to `x1` lies beyond one of the ends `low` and `high`.
/// One whose ends are no numbers lies nowhere.
pub fn wall_off_screen(x0: u32, x1: u32, low: u32, high: u32) -> (r: bool)
    ensures
        r == (!(is_nan(x0) && is_nan(x1)) && (all_left_of(seq![x0, x1], low) || all_right_of(
            seq![x0, x1],
            high,
        ))),
{
    proof {
        let s = seq![x0, x1];
        assert(s[0] == x0 && s[1] == x1);
        crate::words::lemma_infinity_is_last(x0, low, high);
        crate::words::lemma_infinity_is_last(x1, low, high);
    }
    let n0: bool = abs(x0) <= INFINITY;
    let n1: bool = abs(x1) <= INFINITY;
    let left: bool = (!n0 || less(x0, low)) && (!n1 || less(x1, low));
    let right: bool = (!n0 || less(high, x0)) && (!n1 || less(high, x1));
    (n0 || n1) && (left || right)
}

/// Whether an obstacle at this distance from the ship along the cave is left off the
/// minimap.
pub fn off_minimap(distance: u32) -> (r: bool)
    ensures
        r == below(MINIMAP_REACH, absolute(distance)),
        r <==> 0x431c_0000 < distance <= 0x7f80_0000 || 0xc31c_0000 < distance <= 0xff80_0000,
{
    proof {
        crate::words::law_order_follows_the_bits(MINIMAP_REACH, absolute(distance));
    }
    less(MINIMAP_REACH, abs(distance))
}

/// A polygon lies beyond an end exactly if each of its vertices does, those that are
/// no numbers aside: without vertices it lies beyond every end that infinity is not
/// already at, and one more vertex takes part like the others.
pub proof fn law_culling_is_by_vertex(xs: Seq<u32>, y: u32, end: u32)
    ensures
        all_left_of(Seq::empty(), end) <==> below(0xff80_0000, end),
        all_right_of(Seq::empty(), end) <==> below(end, 0x7f80_0000),
        all_left_of(xs.push(y), end) <==> all_left_of(xs, end) && (is_nan(y) || below(y, end)),
        all_right_of(xs.push(y), end) <==> all_right_of(xs, end) && (is_nan(y) || below(end, y)),
{
    let t = xs.push(y);
    assert(t[xs.len() as int] == y);
    assert forall|i: int| #![trigger t[i]] #![trigger xs[i]] 0 <= i < xs.len() implies t[i] == xs[i] by {}
}

/// What is on the screen is never lost: a polygon with a vertex between the two ends lies
/// beyond neither.
pub proof fn law_visible_is_drawn(xs: Seq<u32>, i: int, low: u32, high: u32)
    requires
        0 <= i < xs.len(),
        !is_nan(xs[i]),
        !below(xs[i], low),
        !below(high, xs[i]),
    ensures
        !all_left_of(xs, low),
        !all_right_of(xs, high),
{
}

/// The measures of the screen are 600, 80 and 156, and 30.4 less a fifth of `2^-19`.
pub proof fn law_screen_measures()
    ensures
        crate::words::value(NARROW) == 600 * vstd::arithmetic::power2::pow2(149),
        crate::words::value(SCALE) == 80 * vstd::arithmetic::power2::pow2(149),
        5 * crate::words::value(NARROW_SCALE) == 152 * vstd::arithmetic::power2::pow2(149)
            - vstd::arithmetic::power2::pow2(130),
        crate::words::value(MINIMAP_REACH) == 156 * vstd::arithmetic::power2::pow2(149),
{
    vstd::arithmetic::power2::lemma2_to64();
    // 600 is 75 * 2^3, 80 is 5 * 2^4, 156 is 39 * 2^2.
    vstd::arithmetic::power2::lemma_pow2_adds(14, 135);
    vstd::arithmetic::power2::lemma_pow2_adds(17, 132);
    vstd::arithmetic::power2::lemma_pow2_adds(16, 133);
    vstd::arithmetic::power2::lemma_pow2_adds(19, 130);
    assert(0x41f3_3333int / 0x80_0000 == 131 && 0x41f3_3333int % 0x80_0000 == 0x73_3333);
    assert(0x4416_0000int / 0x80_0000 == 136 && 0x4416_0000int % 0x80_0000 == 0x16_0000);
    assert(0x42a0_0000int / 0x80_0000 == 133 && 0x42a0_0000int % 0x80_0000 == 0x20_0000);
    assert(0x431c_0000int / 0x80_0000 == 134 && 0x431c_0000int % 0x80_0000 == 0x1c_0000);
}

} // verus!
