//! Which obstacle slots belong to a window of wall segments.
//!
//! The bounds of the window are turned into metres, widened by the jitter of an
//! obstacle, and divided by the spacing of the slots, all in single precision.
//! Every number on the way is an integer, so each step is exact integer
//! arithmetic followed by a rounding to 24 significant bits.

use vstd::prelude::*;

use crate::rounding::{lemma_single_error, single, to_single};

verus! {

/// The length of a wall segment, in metres.
pub const SEG_LEN: i64 = 3;

/// The distance from one obstacle slot to the next, in metres.
pub const OBSTACLE_SPACING: i64 = 16;

/// How far an obstacle may stand from the middle of its slot, in metres.
pub const JITTER: i64 = 3;

/// A metre, in the units in which places along the cave are computed.
pub const METRE: i128 = 0x100_0000;

/// The greatest integer that is at most `n / 16`.
pub open spec fn slot_floor(n: int) -> int {
    n / OBSTACLE_SPACING as int
}

/// The least integer that is at least `n / 16`.
pub open spec fn slot_ceil(n: int) -> int {
    -((-n) / OBSTACLE_SPACING as int)
}

/// The first slot of the window whose first segment is `want_left`.
pub open spec fn first_slot(want_left: int) -> int {
    slot_floor(single(single(single(want_left) * SEG_LEN) - JITTER))
}

/// The last slot of the window whose last segment is `want_right`.
pub open spec fn last_slot(want_right: int) -> int {
    slot_ceil(single(single(single(want_right + 1) * SEG_LEN) + JITTER))
}

/// The first and the last obstacle slot that belong to the window from segment
/// `want_left` to segment `want_right`.
pub fn slot_range(want_left: i64, want_right: i64) -> (r: (i64, i64))
    requires
        want_right < i64::MAX,
    ensures
        r.0 == first_slot(want_left as int),
        r.1 == last_slot(want_right as int),
{
    let a: i128 = to_single(want_left as i128);
    assert(a * SEG_LEN == 3 * a) by (nonlinear_arith);
    let b: i128 = to_single(a * (SEG_LEN as i128));
    let left: i128 = to_single(b - (JITTER as i128));
    let c: i128 = to_single(want_right as i128 + 1);
    assert(c * SEG_LEN == 3 * c) by (nonlinear_arith);
    let d: i128 = to_single(c * (SEG_LEN as i128));
    let right: i128 = to_single(d + (JITTER as i128));
    let spacing: i128 = OBSTACLE_SPACING as i128;
    let k_left: i128 = if left >= 0 { left / spacing } else { -((spacing - 1 - left) / spacing) };
    let k_right: i128 = if right >= 0 { (right + spacing - 1) / spacing } else { -((-right) / spacing) };
    (k_left as i64, k_right as i64)
}

/// A slot whose middle is at most `d` metres beyond the ends of a window is among the
/// slots of the window, if `d` is at most 3, or at most 7 and the slot is less than
/// `2^26` metres from the start.
pub(crate) proof fn lemma_slots_reach(want_left: int, want_right: int, k: int, d: int)
    requires
        -44_739_238 <= want_left,
        want_left <= want_right,
        want_right + 1 <= 44_739_238,
        d <= 3 || (d <= 7 && -0x40_0000 < k < 0x40_0000),
        3 * want_left <= 16 * k + d,
        16 * k - d <= 3 * (want_right + 1),
    ensures
        first_slot(want_left) <= k <= last_slot(want_right),
{
    let a = single(want_left);
    let b = single(a * SEG_LEN);
    let e = single(b - JITTER);
    lemma_single_error(want_left);
    lemma_single_error(a * SEG_LEN);
    lemma_single_error(b - JITTER);
    assert(e < 16 * (k + 1));
    let c = single(want_right + 1);
    let g = single(c * SEG_LEN);
    let f = single(g + JITTER);
    lemma_single_error(want_right + 1);
    lemma_single_error(c * SEG_LEN);
    lemma_single_error(g + JITTER);
    assert(f > 16 * (k - 1));
    assert(slot_floor(e) == e / 16);
    assert(slot_ceil(f) == -((-f) / 16));
}

/// The slots of a window cover the jitter of their obstacles: an obstacle that
/// stands in the window, from the left end of its first segment to the right end of
/// its last one, and no farther from the middle of its slot than the jitter, has its
/// slot among them.
///
/// The place `p` of the obstacle is given in units of `2^-24` metres; the bounds on
/// the window keep its ends below `2^27` metres. Farther out single precision is too
/// coarse for the margin.
pub proof fn law_slots_cover_jitter(want_left: int, want_right: int, k: int, p: int)
    requires
        -44_739_238 <= want_left,
        want_left <= want_right,
        want_right + 1 <= 44_739_238,
        (OBSTACLE_SPACING * k - JITTER) * METRE <= p <= (OBSTACLE_SPACING * k + JITTER) * METRE,
        SEG_LEN * want_left * METRE <= p <= SEG_LEN * (want_right + 1) * METRE,
    ensures
        first_slot(want_left) <= k <= last_slot(want_right),
{
    assert(SEG_LEN * want_left * METRE == 3 * want_left * 0x100_0000) by (nonlinear_arith);
    assert(SEG_LEN * (want_right + 1) * METRE == 3 * (want_right + 1) * 0x100_0000) by (nonlinear_arith);
    assert((OBSTACLE_SPACING * k - JITTER) * METRE == (16 * k - 3) * 0x100_0000) by (nonlinear_arith);
    assert((OBSTACLE_SPACING * k + JITTER) * METRE == (16 * k + 3) * 0x100_0000) by (nonlinear_arith);
    lemma_slots_reach(want_left, want_right, k, 3);
}

/// The first slot is the last one that begins at or before the left end of the window,
/// widened by the jitter, and the last slot is the first one at or after its right end,
/// widened likewise. Every step from segments to metres is rounded.
pub proof fn law_slots_enclose_the_window(w: int)
    ensures
        16 * first_slot(w) <= single(single(3 * single(w)) - 3) < 16 * (first_slot(w) + 1),
        16 * (last_slot(w) - 1) < single(single(3 * single(w + 1)) + 3) <= 16 * last_slot(w),
{
    let a = single(w);
    let b = single(w + 1);
    assert(a * SEG_LEN == 3 * a) by (nonlinear_arith);
    assert(b * SEG_LEN == 3 * b) by (nonlinear_arith);
    let e = single(single(3 * a) - 3);
    let f = single(single(3 * b) + 3);
    assert(slot_floor(e) == e / 16);
    assert(slot_ceil(f) == -((-f) / 16));
}

/// As long as single precision can tell whole metres apart, nothing is rounded: the
/// slots of a window are exactly those from the last one at or before three metres to
/// the left of it to the first one at or after three metres to the right of it.
pub proof fn law_near_slots_are_exact(w: int)
    requires
        -5_592_404 <= w <= 5_592_402,
    ensures
        16 * first_slot(w) <= 3 * w - 3 < 16 * first_slot(w) + 16,
        16 * last_slot(w) - 16 < 3 * (w + 1) + 3 <= 16 * last_slot(w),
{
    law_slots_enclose_the_window(w);
    lemma_whole(w);
    lemma_whole(3 * w);
    lemma_whole(3 * w - 3);
    lemma_whole(w + 1);
    lemma_whole(3 * (w + 1));
    lemma_whole(3 * (w + 1) + 3);
}

/// Integers below `2^24` are not rounded.
proof fn lemma_whole(n: int)
    requires
        -0x100_0000 < n < 0x100_0000,
    ensures
        single(n) == n,
{
    crate::rounding::lemma_exact(if n >= 0 {
        n
    } else {
        -n
    });
}

} // verus!
