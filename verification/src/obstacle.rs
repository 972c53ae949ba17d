//! What stands at an obstacle slot.
//!
//! Each slot maps to a fixed position and a fixed convex polygon, derived from the
//! slot alone. The generator of the slot decides in a fixed order: how far the
//! obstacle stands from the middle of its slot, whether there is one, how large it
//! is, how far from the middle of the cave it stands, how many vertices it has, the
//! angle and the distance of each vertex, and how it is turned. How wide the cave is
//! where the obstacle would stand is computed in floating point, and comes as a word.

use vstd::prelude::*;

use crate::rng::{hash, law_streams_stay_apart, seeded, state_after, Rng};
use crate::rounding::{
    encode_rounded, encodes, lemma_exact, lemma_nearest_multiple_error, lemma_single_between, lemma_spacing_bounds,
    single, spacing, to_single,
};
use crate::slots::{
    first_slot, last_slot, lemma_slots_reach, JITTER, METRE, OBSTACLE_SPACING, SEG_LEN,
};
use crate::words::{below, less};

verus! {

/// Obstacles keep this many metres from the start.
pub const SPAWN_CLEARANCE: i128 = 9;

/// The word of `4.5`: half the width, in metres, that the cave needs to have room
/// for an obstacle.
pub const MIN_HALF_WIDTH: u32 = 0x4090_0000;

/// The least number of vertices.
pub const MIN_VERTICES: i32 = 6;

/// The greatest number of vertices.
pub const MAX_VERTICES: i32 = 9;

/// One slot in so many is left empty, roughly.
pub const EMPTY_ONE_IN: i32 = 6;

/// The choices of an obstacle, each from the interval from 0 to 1 in units of
/// `2^-24`.
#[derive(Debug, PartialEq, Eq)]
pub struct ObstacleSpec {
    /// Between 0.3 and 1 times the largest radius.
    pub radius: u32,
    /// Between the lowest and the highest place that leaves a gap.
    pub offset: u32,
    /// By vertex, how far it is off its angle, and how far from the centre.
    pub pts: Vec<(u32, u32)>,
    /// The angle by which the polygon is turned.
    pub rot: u32,
}

/// The seed of slot `k`: its low 32 bits.
pub open spec fn seed(k: i64) -> u32 {
    (k as int % 0x1_0000_0000) as u32
}

/// The word that the generator of slot `k` gives as its `i`-th, from 0 on.
pub open spec fn draw(k: i64, i: int) -> u32 {
    state_after(seeded(seed(k)), (i + 1) as nat)
}

/// The `i`-th word of slot `k` as a part of 1, in units of `2^-24`.
pub open spec fn part(k: i64, i: int) -> u32 {
    draw(k, i) / 256
}

/// Whether slot `k` is left empty wherever it is.
pub open spec fn left_empty(k: i64) -> bool {
    draw(k, 1) as int % EMPTY_ONE_IN as int == 0
}

/// How many vertices an obstacle at slot `k` has.
pub open spec fn vertex_count(k: i64) -> int {
    MIN_VERTICES + draw(k, 4) as int % (MAX_VERTICES - MIN_VERTICES + 1)
}

/// The vertices of an obstacle at slot `k`.
pub open spec fn vertices(k: i64) -> Seq<(u32, u32)> {
    Seq::new(vertex_count(k) as nat, |i: int| (part(k, 5 + 2 * i), part(k, 6 + 2 * i)))
}

/// Where along the cave an obstacle of slot `k` stands, in units of `2^-24` metres:
/// up to three metres from the middle of the slot, every step of the sum rounded to
/// single precision.
pub open spec fn place(k: i64) -> int {
    let jitter = single(single(2 * JITTER * part(k, 0)) - JITTER * METRE);
    single(single(k as int) * OBSTACLE_SPACING * METRE + jitter)
}

/// Whether slot `k` has an obstacle, if the cave is `hw` wide to each side there:
/// away from the start, where there is room, and not left empty.
pub open spec fn occupied(k: i64, hw: u32) -> bool {
    &&& !(-SPAWN_CLEARANCE * METRE < place(k) < SPAWN_CLEARANCE * METRE)
    &&& !below(hw, MIN_HALF_WIDTH)
    &&& !left_empty(k)
}

/// The low 32 bits of a slot.
fn low_bits(k: i64) -> (r: u32)
    ensures
        r == seed(k),
{
    proof {
        assert(k < 0 ==> k as u64 == k + 0x1_0000_0000_0000_0000) by (bit_vector);
        assert(k as u32 == (k as u64) % 0x1_0000_0000) by (bit_vector);
    }
    #[verifier::truncate]
    (k as u32)
}

/// Where along the cave an obstacle of slot `k` stands, before the last rounding,
/// given the first draw of the slot.
fn raw_place(k: i64, unit: u32) -> (r: i128)
    requires
        unit == part(k, 0),
    ensures
        single(r as int) == place(k),
        -0x1_0000_0000_0000_0000_0000_0000 <= r <= 0x1_0000_0000_0000_0000_0000_0000,
{
    let scaled: i128 = to_single(2 * (JITTER as i128) * (unit as i128));
    let jitter: i128 = to_single(scaled - (JITTER as i128) * METRE);
    let middle: i128 = to_single(k as i128);
    assert(2 * JITTER * unit == 6 * unit) by (nonlinear_arith);
    assert(middle * OBSTACLE_SPACING == 16 * middle) by (nonlinear_arith);
    assert((16 * middle) * METRE == 0x1000_0000 * middle) by (nonlinear_arith);
    middle * (OBSTACLE_SPACING as i128) * METRE + jitter
}

/// The word of the place along the cave, in metres, where an obstacle of slot `k`
/// stands.
pub fn obstacle_x(k: i64) -> (r: u32)
    ensures
        encodes(r, place(k)),
{
    let mut rng = Rng::new(low_bits(k));
    assert(state_after(rng.0, 0) == rng.0);
    let unit: u32 = rng.unit();
    encode_rounded(raw_place(k, unit))
}

/// The obstacle of slot `k`, if it has one. It stands at `obstacle_x`, and `hw` is
/// the word of half the width of the cave there.
pub fn obstacle_spec(k: i64, hw: u32) -> (r: Option<ObstacleSpec>)
    ensures
        r is Some <==> occupied(k, hw),
        r matches Some(o) ==> {
            &&& o.radius == part(k, 2)
            &&& o.offset == part(k, 3)
            &&& o.pts@ == vertices(k)
            &&& o.rot == part(k, 5 + 2 * vertex_count(k))
        },
{
    let mut rng = Rng::new(low_bits(k));
    let ghost s = rng.0;
    assert(rng.0 == state_after(s, 0));
    let unit: u32 = rng.unit();
    assert(rng.0 == state_after(s, 1));
    // Keep the spawn area clear so a reset never drops the ship onto a rock.
    let cx: i128 = to_single(raw_place(k, unit));
    if -SPAWN_CLEARANCE * METRE < cx && cx < SPAWN_CLEARANCE * METRE {
        return None;
    }
    // Skip pinch points: there is no room for an obstacle plus a passable gap.
    if less(hw, MIN_HALF_WIDTH) {
        return None;
    }
    assert(state_after(s, 2) == hash(rng.0));
    if rng.range_int(0, EMPTY_ONE_IN - 1) == 0 {
        return None;
    }
    assert(rng.0 == state_after(s, 2));
    let radius: u32 = rng.unit();
    assert(rng.0 == state_after(s, 3));
    let offset: u32 = rng.unit();
    assert(rng.0 == state_after(s, 4));
    let n: i32 = rng.range_int(MIN_VERTICES, MAX_VERTICES);
    let mut pts: Vec<(u32, u32)> = Vec::new();
    let mut i: i32 = 0;
    assert(rng.0 == state_after(s, 5));
    while i < n
        invariant
            0 <= i <= n,
            n == vertex_count(k),
            s == seeded(seed(k)),
            rng.0 == state_after(s, (5 + 2 * i) as nat),
            pts@.len() == i,
            forall|j: int| 0 <= j < i ==> #[trigger] pts@[j] == vertices(k)[j],
        decreases n - i,
    {
        let angle: u32 = rng.unit();
        assert(rng.0 == state_after(s, (6 + 2 * i) as nat));
        let distance: u32 = rng.unit();
        assert(rng.0 == state_after(s, (7 + 2 * i) as nat));
        assert(vertices(k)[i as int] == (angle, distance));
        pts.push((angle, distance));
        i = i + 1;
    }
    assert(pts@ == vertices(k));
    let rot: u32 = rng.unit();
    Some(ObstacleSpec { radius, offset, pts, rot })
}

/// An obstacle has from six to nine vertices.
pub proof fn law_vertex_count(k: i64)
    ensures
        6 <= vertices(k).len() <= 9,
{
}

/// No obstacle stands where the cave is less than nine metres wide.
pub proof fn law_pinch_points_are_clear(k: i64, hw: u32)
    requires
        below(hw, MIN_HALF_WIDTH),
    ensures
        !occupied(k, hw),
{
}

/// An obstacle stands within three metres of the middle of its slot, as long as
/// single precision can tell whole metres apart there.
pub proof fn law_place_is_near_its_slot(k: i64)
    requires
        -0x10_0000 < k < 0x10_0000,
    ensures
        (OBSTACLE_SPACING * k - JITTER) * METRE <= place(k) <= (OBSTACLE_SPACING * k + JITTER) * METRE,
{
    let u = part(k, 0) as int;
    assert(2 * JITTER * u == 6 * u) by (nonlinear_arith);
    lemma_single_between(6 * u, 0, 6);
    let scaled = single(6 * u);
    lemma_single_between(scaled - 3 * 0x100_0000, -3, 3);
    let jitter = single(scaled - 3 * 0x100_0000);
    lemma_exact(if k >= 0 { k as int } else { -k });
    assert(single(k as int) == k);
    assert(k * OBSTACLE_SPACING == 16 * k) by (nonlinear_arith);
    assert(OBSTACLE_SPACING * k == 16 * k) by (nonlinear_arith);
    lemma_single_between((16 * k) * 0x100_0000 + jitter, 16 * k - 3, 16 * k + 3);
}

/// A reset never drops the ship onto a rock: the slot at the start has no obstacle,
/// and those of the other slots stand well away.
pub proof fn law_spawn_area_is_clear(k: i64, hw: u32)
    ensures
        k == 0 ==> !occupied(k, hw),
        k != 0 ==> place(k) >= 13 * METRE || place(k) <= -13 * METRE,
{
    if -0x10_0000 < k < 0x10_0000 {
        law_place_is_near_its_slot(k);
        assert(OBSTACLE_SPACING * k == 16 * k) by (nonlinear_arith);
    } else {
        let u = part(k, 0) as int;
        assert(2 * JITTER * u == 6 * u) by (nonlinear_arith);
        lemma_single_between(6 * u, 0, 6);
        lemma_single_between(single(6 * u) - 3 * 0x100_0000, -3, 3);
        let i = single(k as int);
        lemma_half_at_least(k as int);
        assert(i * OBSTACLE_SPACING == 16 * i) by (nonlinear_arith);
        assert((16 * i) * METRE == 0x1000_0000 * i) by (nonlinear_arith);
        lemma_half_at_least(0x1000_0000 * i + single(single(6 * u) - 3 * 0x100_0000));
    }
}

/// Rounding does not halve a number.
proof fn lemma_half_at_least(n: int)
    ensures
        n >= 2 ==> 2 * single(n) >= n,
        n <= -2 ==> 2 * single(n) <= n,
{
    let m = if n >= 0 { n } else { -n };
    lemma_spacing_bounds(m);
    lemma_nearest_multiple_error(m, spacing(m));
}

/// Below `2^26` metres an obstacle stands within seven metres of the middle of its
/// slot, its jitter and the last rounding taken together.
proof fn lemma_place_is_near(k: i64)
    requires
        -0x40_0000 < k < 0x40_0000,
    ensures
        (16 * k - 7) * METRE <= place(k) <= (16 * k + 7) * METRE,
{
    let u = part(k, 0) as int;
    assert(2 * JITTER * u == 6 * u) by (nonlinear_arith);
    lemma_single_between(6 * u, 0, 6);
    lemma_single_between(single(6 * u) - 3 * 0x100_0000, -3, 3);
    lemma_exact(if k >= 0 { k as int } else { -k });
    assert(k * OBSTACLE_SPACING == 16 * k) by (nonlinear_arith);
    let n = (16 * k) * 0x100_0000 + single(single(6 * u) - 3 * 0x100_0000);
    let m = if n >= 0 { n } else { -n };
    lemma_spacing_bounds(m);
    lemma_nearest_multiple_error(m, spacing(m));
}

/// An obstacle that stands in a window of wall segments has its slot among those of
/// the window.
///
/// The slot is less than `2^26` metres from the start, and the ends of the window
/// less than `2^27` metres. Farther out single precision is too coarse for the
/// margin.
pub proof fn law_window_has_its_obstacles(k: i64, want_left: int, want_right: int)
    requires
        -0x40_0000 < k < 0x40_0000,
        -44_739_238 <= want_left,
        want_left <= want_right,
        want_right + 1 <= 44_739_238,
        SEG_LEN * want_left * METRE <= place(k) <= SEG_LEN * (want_right + 1) * METRE,
    ensures
        first_slot(want_left) <= k <= last_slot(want_right),
{
    lemma_place_is_near(k);
    assert(SEG_LEN * want_left * METRE == 3 * want_left * 0x100_0000) by (nonlinear_arith);
    assert(SEG_LEN * (want_right + 1) * METRE == 3 * (want_right + 1) * 0x100_0000) by (nonlinear_arith);
    lemma_slots_reach(want_left, want_right, k as int, 7);
}

/// Two slots less than `2^32` apart are decided by different words at every step.
pub proof fn law_slots_differ(k: i64, l: i64, i: int)
    requires
        k < l,
        l - k < 0x1_0000_0000,
        0 <= i,
    ensures
        draw(k, i) != draw(l, i),
{
    if draw(k, i) == draw(l, i) {
        law_streams_stay_apart(seed(k), seed(l), (i + 1) as nat);
    }
}

/// A slot has an obstacle exactly if its place is at least nine metres from the start,
/// the cave is not less than four and a half metres wide to each side there, and the
/// second draw of the slot is no multiple of six.
pub proof fn law_slot_is_occupied(k: i64, hw: u32)
    ensures
        occupied(k, hw) <==> (place(k) >= 9 * 0x100_0000 || place(k) <= -9 * 0x100_0000) && !below(
            hw,
            0x4090_0000,
        ) && draw(k, 1) % 6 != 0,
        2 * crate::words::value(0x4090_0000) == 9 * vstd::arithmetic::power2::pow2(149),
{
    vstd::arithmetic::power2::lemma2_to64();
    vstd::arithmetic::power2::lemma_pow2_adds(20, 129);
    vstd::arithmetic::power2::lemma_pow2_unfold(129);
    assert(0x4090_0000int / 0x80_0000 == 129 && 0x4090_0000int % 0x80_0000 == 0x10_0000);
}

/// Where the cave is wider there is room for everything that fits where it is narrower.
pub proof fn law_wider_cave_keeps_the_obstacle(k: i64, narrow: u32, wide: u32)
    requires
        occupied(k, narrow),
        !crate::words::is_nan(narrow),
        !below(wide, narrow),
    ensures
        occupied(k, wide),
{
    crate::words::law_order_follows_the_bits(narrow, 0x4090_0000);
    crate::words::law_order_follows_the_bits(wide, 0x4090_0000);
    crate::words::law_order_follows_the_bits(wide, narrow);
    crate::words::law_sign_bit_negates(
        if narrow < 0x8000_0000 {
            narrow
        } else {
            (narrow - 0x8000_0000) as u32
        },
    );
}

/// Whether a slot has an obstacle depends on nothing but the slot and the room there:
/// where there is room for one at one width, there is at every width that is not
/// narrow, and at a narrow one there is for none.
pub proof fn law_room_alone_decides(k: i64, a: u32, b: u32)
    requires
        !below(a, 0x4090_0000),
    ensures
        !below(b, 0x4090_0000) ==> (occupied(k, a) <==> occupied(k, b)),
        below(b, 0x4090_0000) ==> !occupied(k, b),
{
}

/// The seed of a slot is its remainder: slots `2^32` apart have the same seed, and
/// others have not.
pub proof fn law_seed_is_the_remainder(k: i64)
    ensures
        (k - seed(k)) % 0x1_0000_0000 == 0,
        0 <= k < 0x1_0000_0000 ==> seed(k) == k,
{
}

/// The draws of a slot follow each other by mixing, from its seed on, and the part of
/// 1 that a draw stands for is its first 24 bits.
pub proof fn law_draws_follow_each_other(k: i64, i: int)
    requires
        0 <= i,
    ensures
        draw(k, 0) == hash(seeded(seed(k))),
        draw(k, i + 1) == hash(draw(k, i)),
        256 * part(k, i) <= draw(k, i) < 256 * part(k, i) + 256,
{
    let s = seeded(seed(k));
    assert(state_after(s, 0) == s);
    assert(state_after(s, 1) == hash(state_after(s, 0)));
    assert(state_after(s, (i + 2) as nat) == hash(state_after(s, (i + 1) as nat)));
}

/// The number of vertices is the one from six to nine that differs from six plus the
/// fifth draw by a multiple of four. The vertices take two draws each, in order, from
/// the sixth draw on.
pub proof fn law_vertices_are_drawn_in_order(k: i64, i: int)
    ensures
        vertex_count(k) == vertices(k).len(),
        6 <= vertices(k).len() <= 9,
        (draw(k, 4) + 6 - vertices(k).len()) % 4 == 0,
        0 <= i < vertices(k).len() ==> {
            &&& 256 * vertices(k)[i].0 <= draw(k, 5 + 2 * i) < 256 * vertices(k)[i].0 + 256
            &&& 256 * vertices(k)[i].1 <= draw(k, 6 + 2 * i) < 256 * vertices(k)[i].1 + 256
        },
{
    assert(vertex_count(k) == 6 + draw(k, 4) as int % 4);
}

/// The place of an obstacle is sixteen metres times the slot, six metres times the part
/// that the first draw stands for, less three metres; each step is rounded.
pub proof fn law_place_is_the_rounded_sum(k: i64)
    ensures
        place(k) == single(
            0x1000_0000 * single(k as int) + single(single(6 * part(k, 0)) - 0x300_0000),
        ),
{
    let i = single(k as int);
    assert(2 * JITTER * part(k, 0) == 6 * part(k, 0)) by (nonlinear_arith);
    assert(i * OBSTACLE_SPACING == 16 * i) by (nonlinear_arith);
    assert((16 * i) * METRE == 0x1000_0000 * i) by (nonlinear_arith);
}

/// The roundings move an obstacle hardly at all: by less than a metre in sixteen
/// million.
pub proof fn law_place_follows_the_draw(k: i64)
    requires
        -0x10_0000 < k < 0x10_0000,
    ensures
        ({
            let exact = 0x1000_0000 * k + 6 * part(k, 0) - 0x300_0000;
            let slack = 9 + (if k >= 0 {
                16 * k
            } else {
                -16 * k
            });
            -slack <= place(k) - exact <= slack
        }),
{
    let u = part(k, 0) as int;
    law_place_is_the_rounded_sum(k);
    crate::rounding::lemma_single_error(6 * u);
    crate::rounding::lemma_single_error(single(6 * u) - 0x300_0000);
    lemma_exact(if k >= 0 {
        k as int
    } else {
        -k
    });
    let n = 0x1000_0000 * k + single(single(6 * u) - 0x300_0000);
    let m = if n >= 0 {
        n
    } else {
        -n
    };
    lemma_spacing_bounds(m);
    lemma_nearest_multiple_error(m, spacing(m));
}

} // verus!
