//! The sliding window of wall segments around the ship.

use rapier2d::dynamics::{IslandManager, RigidBodySet};
use rapier2d::geometry::Collider;
use std::collections::VecDeque;
use vstd::prelude::*;

use crate::colliders::{collider_data, collider_limit, ColliderStore};
use crate::rounding::{
    encode_rounded, encodes, lemma_exact, lemma_one_word, lemma_single_between, single, to_single,
};
use crate::slots::{METRE, SEG_LEN};

verus! {

/// How many segments to keep loaded on each side of the ship.
pub const HALF_WINDOW: i64 = 80;

/// A loaded segment: its place along the cave, and the handles of its ceiling and
/// its floor.
#[derive(Clone, Copy, Debug, PartialEq, Eq)]
pub struct WallSegment {
    pub idx: i64,
    pub top: (u32, u32),
    pub bot: (u32, u32),
}

/// The loaded segments, from left to right.
pub struct CaveWindow {
    pub segs: VecDeque<WallSegment>,
}

/// Whether the segments follow each other without a gap.
pub open spec fn contiguous(s: Seq<WallSegment>) -> bool {
    forall|i: int| 0 <= i < s.len() ==> (#[trigger] s[i]).idx == s[0].idx + i
}

/// Whether a segment lies between `left` and `right`, both included.
pub open spec fn within(left: int, right: int) -> spec_fn(WallSegment) -> bool {
    |g: WallSegment| left <= g.idx <= right
}

/// Whether a segment does not lie between `left` and `right`.
pub open spec fn outside(left: int, right: int) -> spec_fn(WallSegment) -> bool {
    |g: WallSegment| !(left <= g.idx <= right)
}

/// The segments that stay when the window moves to `left..=right`.
pub open spec fn kept(s: Seq<WallSegment>, left: int, right: int) -> Seq<WallSegment> {
    s.filter(within(left, right))
}

/// The segments that go when the window moves to `left..=right`.
pub open spec fn evicted(s: Seq<WallSegment>, left: int, right: int) -> Seq<WallSegment> {
    s.filter(outside(left, right))
}

/// How many segments a window `k` inside `left..=right` lacks at its left end.
pub open spec fn lacking_left(k: Seq<WallSegment>, left: int) -> int {
    if k.len() == 0 {
        0
    } else {
        k[0].idx - left
    }
}

/// The segments that a window `k` inside `left..=right` loads, in the order in which
/// it loads them: from its left end outwards, then from its right end outwards. An
/// empty window has no ends; it loads all segments from left to right.
pub open spec fn lacking(k: Seq<WallSegment>, left: int, right: int) -> Seq<int> {
    if k.len() == 0 {
        Seq::new((right - left + 1) as nat, |j: int| left + j)
    } else {
        let n = lacking_left(k, left);
        Seq::new(
            (n + right - k.last().idx) as nat,
            |j: int|
                if j < n {
                    k[0].idx - 1 - j
                } else {
                    k.last().idx + 1 + (j - n)
                },
        )
    }
}

/// The segments to load when the window moves to `left..=right`.
pub open spec fn missing(s: Seq<WallSegment>, left: int, right: int) -> Seq<int> {
    lacking(kept(s, left, right), left, right)
}

/// The window that comes of `k` when the segments `f` are loaded, the first `n` of
/// them at its left end and the rest at its right end.
pub open spec fn extended(k: Seq<WallSegment>, f: Seq<WallSegment>, n: int) -> Seq<WallSegment> {
    f.take(n).reverse() + k + f.skip(n)
}

/// The loaded segments, in the order of loading, of a window `w` that came of `k`,
/// `n` of them at its left end.
pub open spec fn loaded(w: Seq<WallSegment>, k: Seq<WallSegment>, n: int) -> Seq<WallSegment> {
    w.take(n).reverse() + w.skip(n + k.len())
}

/// Whether `h` is the ceiling or the floor of `g`.
pub open spec fn holds(g: WallSegment, h: (u32, u32)) -> bool {
    g.top == h || g.bot == h
}

/// The handles of all ceilings and floors.
pub open spec fn handles(s: Seq<WallSegment>) -> Set<(u32, u32)> {
    Set::new(|h: (u32, u32)| exists|i: int| 0 <= i < s.len() && #[trigger] holds(s[i], h))
}

/// The colliders `m`, after the colliders `c` of the segments `f` have joined them.
pub open spec fn with_walls(
    m: Map<(u32, u32), (Seq<u8>, bool)>,
    f: Seq<WallSegment>,
    c: Seq<(Collider, Collider)>,
) -> Map<(u32, u32), (Seq<u8>, bool)>
    decreases f.len(),
{
    if f.len() == 0 {
        m
    } else {
        with_walls(m, f.drop_last(), c).insert(
            f.last().top,
            (collider_data(c[f.len() - 1].0), false),
        ).insert(f.last().bot, (collider_data(c[f.len() - 1].1), false))
    }
}

/// Whether the segments have handles of their own: no two colliders of theirs share
/// one.
pub open spec fn distinct(s: Seq<WallSegment>) -> bool {
    &&& forall|i: int| 0 <= i < s.len() ==> (#[trigger] s[i]).top != s[i].bot
    &&& forall|i: int, j: int|
        0 <= i < s.len() && 0 <= j < s.len() && i != j ==> !holds(#[trigger] s[i], (#[trigger] s[j]).top)
            && !holds(s[i], s[j].bot)
}

/// Whether the colliders of the segments are all among `m`, each under a handle of
/// its own and attached to no body.
pub open spec fn backed(s: Seq<WallSegment>, m: Map<(u32, u32), (Seq<u8>, bool)>) -> bool {
    &&& distinct(s)
    &&& unattached(s, m)
    &&& forall|i: int|
        0 <= i < s.len() ==> m.dom().contains((#[trigger] s[i]).top) && m.dom().contains(s[i].bot)
}

/// Whether none of the colliders of the segments is attached to a body.
pub open spec fn unattached(
    s: Seq<WallSegment>,
    m: Map<(u32, u32), (Seq<u8>, bool)>,
) -> bool {
    forall|i: int|
        0 <= i < s.len() ==> (m.dom().contains((#[trigger] s[i]).top) ==> !m[s[i].top].1) && (
        m.dom().contains(s[i].bot) ==> !m[s[i].bot].1)
}

/// Whether the handles of the segments are their own and new to `m`.
pub open spec fn fresh_to(s: Seq<WallSegment>, m: Map<(u32, u32), (Seq<u8>, bool)>) -> bool {
    &&& distinct(s)
    &&& forall|i: int|
        0 <= i < s.len() ==> !m.dom().contains((#[trigger] s[i]).top) && !m.dom().contains(s[i].bot)
}

/// The colliders that are left of `m` when the segments outside `left..=right` have
/// gone.
pub open spec fn remaining(
    s: Seq<WallSegment>,
    m: Map<(u32, u32), (Seq<u8>, bool)>,
    left: int,
    right: int,
) -> Map<(u32, u32), (Seq<u8>, bool)> {
    m.remove_keys(handles(evicted(s, left, right)))
}

/// How a window `s` among the colliders `m` moves to `left..=right`: the segments
/// outside leave with their colliders, and the missing ones are loaded with the
/// colliders `walls`, which gives the window `t` among the colliders `o`.
pub open spec fn slid(
    s: Seq<WallSegment>,
    m: Map<(u32, u32), (Seq<u8>, bool)>,
    left: int,
    right: int,
    walls: Seq<(Collider, Collider)>,
    t: Seq<WallSegment>,
    o: Map<(u32, u32), (Seq<u8>, bool)>,
) -> bool {
    let k = kept(s, left, right);
    let n = lacking_left(k, left);
    let f = loaded(t, k, n);
    let rest = remaining(s, m, left, right);
    &&& t == extended(k, f, n)
    &&& f.len() == missing(s, left, right).len()
    &&& forall|j: int| 0 <= j < f.len() ==> (#[trigger] f[j]).idx == missing(s, left, right)[j]
    &&& fresh_to(f, rest)
    &&& o == with_walls(rest, f, walls)
}

/// How many segments lie to the left of `left`.
spec fn cut_left(s: Seq<WallSegment>, left: int) -> int {
    if s.len() == 0 || left <= s[0].idx {
        0
    } else if left - s[0].idx >= s.len() {
        s.len() as int
    } else {
        left - s[0].idx
    }
}

/// How many segments do not lie to the right of `right`, counted from `cut_left`.
spec fn cut_right(s: Seq<WallSegment>, left: int, right: int) -> int {
    if s.len() == 0 || right + 1 - s[0].idx <= cut_left(s, left) {
        cut_left(s, left)
    } else if right + 1 - s[0].idx >= s.len() {
        s.len() as int
    } else {
        right + 1 - s[0].idx
    }
}

proof fn lemma_filter_all<A>(s: Seq<A>, p: spec_fn(A) -> bool)
    requires
        forall|i: int| 0 <= i < s.len() ==> p(#[trigger] s[i]),
    ensures
        s.filter(p) == s,
    decreases s.len(),
{
    reveal(Seq::filter);
    if s.len() > 0 {
        lemma_filter_all(s.drop_last(), p);
        assert(s == s.drop_last().push(s.last()));
    }
}

proof fn lemma_filter_none<A>(s: Seq<A>, p: spec_fn(A) -> bool)
    requires
        forall|i: int| 0 <= i < s.len() ==> !p(#[trigger] s[i]),
    ensures
        s.filter(p) == Seq::<A>::empty(),
    decreases s.len(),
{
    reveal(Seq::filter);
    if s.len() > 0 {
        lemma_filter_none(s.drop_last(), p);
    }
}

/// What stays is the middle of the window, what goes its two ends.
proof fn lemma_cuts(s: Seq<WallSegment>, left: int, right: int)
    requires
        contiguous(s),
        left <= right,
    ensures
        0 <= cut_left(s, left) <= cut_right(s, left, right) <= s.len(),
        kept(s, left, right) == s.subrange(cut_left(s, left), cut_right(s, left, right)),
        evicted(s, left, right) == s.take(cut_left(s, left)) + s.skip(cut_right(s, left, right)),
{
    let a = cut_left(s, left);
    let b = cut_right(s, left, right);
    let x = s.take(a);
    let y = s.subrange(a, b);
    let z = s.skip(b);
    assert(s == (x + y) + z);
    let p = within(left, right);
    let q = outside(left, right);
    Seq::filter_distributes_over_add(x + y, z, p);
    Seq::filter_distributes_over_add(x, y, p);
    Seq::filter_distributes_over_add(x + y, z, q);
    Seq::filter_distributes_over_add(x, y, q);
    lemma_filter_none(x, p);
    lemma_filter_all(y, p);
    lemma_filter_none(z, p);
    lemma_filter_all(x, q);
    lemma_filter_none(y, q);
    lemma_filter_all(z, q);
}

proof fn lemma_handles_push(s: Seq<WallSegment>, g: WallSegment)
    ensures
        handles(s.push(g)) == handles(s).insert(g.top).insert(g.bot),
{
    let t = s.push(g);
    assert forall|h: (u32, u32)| #[trigger] handles(t).contains(h) <==> handles(s).insert(g.top).insert(
        g.bot,
    ).contains(h) by {
        if handles(s).contains(h) {
            let i = choose|i: int| 0 <= i < s.len() && #[trigger] holds(s[i], h);
            assert(holds(t[i], h));
        }
        if h == g.top || h == g.bot {
            assert(holds(t[s.len() as int], h));
        }
        if handles(t).contains(h) {
            let i = choose|i: int| 0 <= i < t.len() && #[trigger] holds(t[i], h);
            if i < s.len() {
                assert(holds(s[i], h));
            }
        }
    }
    assert(handles(t) =~= handles(s).insert(g.top).insert(g.bot));
}

/// Moving the last segment to the place `a` changes no handle.
proof fn lemma_handles_same(t: Seq<WallSegment>, u: Seq<WallSegment>, a: int)
    requires
        0 <= a < t.len(),
        u == t.drop_last().insert(a, t.last()),
    ensures
        handles(t) == handles(u),
{
    let n = t.len() - 1;
    assert forall|h: (u32, u32)| #[trigger] handles(t).contains(h) <==> handles(u).contains(h) by {
        if handles(t).contains(h) {
            let i = choose|i: int| 0 <= i < t.len() && #[trigger] holds(t[i], h);
            let j = if i == n {
                a
            } else if i < a {
                i
            } else {
                i + 1
            };
            assert(holds(u[j], h));
        }
        if handles(u).contains(h) {
            let j = choose|j: int| 0 <= j < u.len() && #[trigger] holds(u[j], h);
            let i = if j == a {
                n
            } else if j < a {
                j
            } else {
                j - 1
            };
            assert(holds(t[i], h));
        }
    }
    assert(handles(t) =~= handles(u));
}

/// The colliders that the walls join, and those of the walls, are all that there
/// is.
proof fn lemma_with_walls_dom(
    m: Map<(u32, u32), (Seq<u8>, bool)>,
    f: Seq<WallSegment>,
    c: Seq<(Collider, Collider)>,
)
    ensures
        with_walls(m, f, c).dom() == m.dom().union(handles(f)),
    decreases f.len(),
{
    if f.len() == 0 {
        assert(m.dom() =~= m.dom().union(handles(f)));
    } else {
        lemma_with_walls_dom(m, f.drop_last(), c);
        lemma_handles_push(f.drop_last(), f.last());
        assert(f == f.drop_last().push(f.last()));
        assert(with_walls(m, f, c).dom() =~= m.dom().union(handles(f)));
    }
}

/// One more segment joins the walls.
proof fn lemma_with_walls_push(
    m: Map<(u32, u32), (Seq<u8>, bool)>,
    f: Seq<WallSegment>,
    c: Seq<(Collider, Collider)>,
    g: WallSegment,
)
    requires
        fresh_to(f, m),
        g.top != g.bot,
        !with_walls(m, f, c).dom().contains(g.top),
        !with_walls(m, f, c).dom().contains(g.bot),
    ensures
        fresh_to(f.push(g), m),
        with_walls(m, f.push(g), c) == with_walls(m, f, c).insert(
            g.top,
            (collider_data(c[f.len() as int].0), false),
        ).insert(g.bot, (collider_data(c[f.len() as int].1), false)),
{
    lemma_with_walls_dom(m, f, c);
    assert(f.push(g).drop_last() == f);
    let t = f.push(g);
    assert forall|i: int, j: int| 0 <= i < t.len() && 0 <= j < t.len() && i != j implies !holds(
        #[trigger] t[i],
        (#[trigger] t[j]).top,
    ) && !holds(t[i], t[j].bot) by {
        if i == f.len() {
            assert(holds(f[j], f[j].top) && holds(f[j], f[j].bot));
            assert(handles(f).contains(f[j].top) && handles(f).contains(f[j].bot));
        } else if j == f.len() {
            if holds(f[i], g.top) || holds(f[i], g.bot) {
                assert(handles(f).contains(g.top) || handles(f).contains(g.bot));
            }
        }
    }
}

/// More segments join the walls after others.
proof fn lemma_with_walls_append(
    m: Map<(u32, u32), (Seq<u8>, bool)>,
    f: Seq<WallSegment>,
    g: Seq<WallSegment>,
    c: Seq<(Collider, Collider)>,
)
    requires
        fresh_to(f, m),
        fresh_to(g, with_walls(m, f, c)),
        f.len() + g.len() <= c.len(),
    ensures
        fresh_to(f + g, m),
        with_walls(m, f + g, c) == with_walls(with_walls(m, f, c), g, c.skip(f.len() as int)),
    decreases g.len(),
{
    if g.len() == 0 {
        assert(f + g == f);
    } else {
        let e = g.drop_last();
        let h = g.last();
        let o = with_walls(m, f, c);
        let d = c.skip(f.len() as int);
        assert forall|i: int| 0 <= i < e.len() implies #[trigger] e[i] == g[i] by {}
        assert(fresh_to(e, o));
        lemma_with_walls_append(m, f, e, c);
        lemma_with_walls_dom(o, e, d);
        assert(!handles(e).contains(h.top) && !handles(e).contains(h.bot)) by {
            assert forall|i: int| 0 <= i < e.len() implies !(#[trigger] holds(e[i], h.top)) && !holds(
                e[i],
                h.bot,
            ) by {
                assert(e[i] == g[i] && h == g[g.len() - 1]);
            }
        }
        assert(g[g.len() - 1] == h);
        lemma_with_walls_push(m, f + e, c, h);
        assert(f + g == (f + e).push(h));
        assert(d[g.len() - 1] == c[(f + e).len() as int]);
    }
}

/// The loaded segments continue the window at both ends.
proof fn lemma_extended_contiguous(k: Seq<WallSegment>, f: Seq<WallSegment>, left: int, right: int)
    requires
        contiguous(k),
        left <= right,
        forall|i: int| 0 <= i < k.len() ==> left <= (#[trigger] k[i]).idx <= right,
        f.len() == lacking(k, left, right).len(),
        forall|j: int| 0 <= j < f.len() ==> (#[trigger] f[j]).idx == lacking(k, left, right)[j],
    ensures
        contiguous(extended(k, f, lacking_left(k, left))),
{
    let n = lacking_left(k, left);
    let w = extended(k, f, n);
    if k.len() > 0 {
        assert forall|i: int| 0 <= i < w.len() implies (#[trigger] w[i]).idx == left + i by {
            if i < n {
                assert(w[i] == f[n - 1 - i]);
            } else if i < n + k.len() {
                assert(w[i] == k[i - n]);
            } else {
                assert(w[i] == f[i - k.len()]);
                assert(k.last().idx == k[0].idx + k.len() - 1);
            }
        }
    }
}

/// The left end of a segment along the cave, in units of `2^-24` metres, rounded to
/// single precision.
pub open spec fn left_end(idx: i64) -> int {
    single(single(idx as int) * SEG_LEN * METRE)
}

/// The right end of a segment along the cave, in units of `2^-24` metres, rounded to
/// single precision.
pub open spec fn right_end(idx: i64) -> int {
    single(left_end(idx) + SEG_LEN * METRE)
}

/// The words of the two ends of a segment along the cave, in metres.
pub fn seg_ends(idx: i64) -> (r: (u32, u32))
    ensures
        encodes(r.0, left_end(idx)),
        encodes(r.1, right_end(idx)),
{
    let i: i128 = to_single(idx as i128);
    assert(i * SEG_LEN == 3 * i) by (nonlinear_arith);
    assert((3 * i) * METRE == 0x300_0000 * i) by (nonlinear_arith);
    let x: i128 = i * (SEG_LEN as i128) * METRE;
    let left: i128 = to_single(x);
    (encode_rounded(x), encode_rounded(left + (SEG_LEN as i128) * METRE))
}

/// Whether the colliders `o` are the colliders `m`, joined by a ceiling with the data
/// `top` and a floor with the data `bot`, under the handles `r`: two different ones
/// that `m` does not have.
pub open spec fn inserted(
    m: Map<(u32, u32), (Seq<u8>, bool)>,
    top: Seq<u8>,
    bot: Seq<u8>,
    r: ((u32, u32), (u32, u32)),
    o: Map<(u32, u32), (Seq<u8>, bool)>,
) -> bool {
    &&& r.0 != r.1
    &&& !m.dom().contains(r.0)
    &&& !m.dom().contains(r.1)
    &&& o == m.insert(r.0, (top, false)).insert(r.1, (bot, false))
}

/// Adds the ceiling and the floor of a segment and returns their handles.
pub fn insert_seg(top: Collider, bot: Collider, store: &mut ColliderStore) -> (r: (
    (u32, u32),
    (u32, u32),
))
    requires
        old(store).wf(),
        old(store).has_room_for(2, 0),
    ensures
        final(store).wf(),
        final(store).removals == old(store).removals,
        inserted(old(store)@, collider_data(top), collider_data(bot), r, final(store)@),
        r.0 != r.1,
        !old(store)@.dom().contains(r.0),
        !old(store)@.dom().contains(r.1),
        final(store)@ == old(store)@.insert(r.0, (collider_data(top), false)).insert(
            r.1,
            (collider_data(bot), false),
        ),
        final(store)@.dom().len() == old(store)@.dom().len() + 2,
{
    let t = store.insert(top);
    let b = store.insert(bot);
    (t, b)
}

impl View for CaveWindow {
    type V = Seq<WallSegment>;

    /// The loaded segments.
    open spec fn view(&self) -> Seq<WallSegment> {
        self.segs@
    }
}

/// While some of the segments `gone` have left, `part`, the colliders of another one
/// of them are more than those that are left when all have gone.
proof fn lemma_room_to_remove(
    m: Map<(u32, u32), (Seq<u8>, bool)>,
    gone: Seq<WallSegment>,
    part: Seq<WallSegment>,
    g: WallSegment,
)
    requires
        m.dom().finite(),
        forall|i: int| 0 <= i < part.len() ==> gone.contains(#[trigger] part[i]),
        gone.contains(g),
    ensures
        ({
            let rest = m.remove_keys(handles(gone)).dom();
            let x = m.remove_keys(handles(part)).dom();
            &&& x.contains(g.top) ==> rest.len() < x.len()
            &&& x.remove(g.top).contains(g.bot) ==> rest.len() < x.remove(g.top).len()
        }),
{
    let rest = m.remove_keys(handles(gone)).dom();
    let x = m.remove_keys(handles(part)).dom();
    assert forall|h: (u32, u32)| handles(part).contains(h) implies handles(gone).contains(h) by {
        let i = choose|i: int| 0 <= i < part.len() && #[trigger] holds(part[i], h);
        let j = choose|j: int| 0 <= j < gone.len() && gone[j] == part[i];
        assert(holds(gone[j], h));
    }
    let l = choose|l: int| 0 <= l < gone.len() && gone[l] == g;
    assert(holds(gone[l], g.top) && holds(gone[l], g.bot));
    assert(x =~= m.dom().difference(handles(part)));
    assert(x.subset_of(m.dom()));
    vstd::set_lib::lemma_set_subset_finite(m.dom(), x);
    if x.contains(g.top) {
        vstd::set_lib::lemma_len_subset(rest, x.remove(g.top));
    }
    if x.remove(g.top).contains(g.bot) {
        vstd::set_lib::lemma_len_subset(rest, x.remove(g.top).remove(g.bot));
    }
}

/// Each segment that goes takes at most two colliders along.
proof fn lemma_colliders_gone(m: Map<(u32, u32), (Seq<u8>, bool)>, gone: Seq<WallSegment>)
    requires
        m.dom().finite(),
    ensures
        m.remove_keys(handles(gone)).dom().finite(),
        m.dom().len() <= m.remove_keys(handles(gone)).dom().len() + 2 * gone.len(),
    decreases gone.len(),
{
    let x = m.remove_keys(handles(gone)).dom();
    if gone.len() == 0 {
        assert(x =~= m.dom());
    } else {
        let e = gone.drop_last();
        let g = gone.last();
        lemma_colliders_gone(m, e);
        assert(gone == e.push(g));
        lemma_handles_push(e, g);
        assert(x =~= m.remove_keys(handles(e)).dom().remove(g.top).remove(g.bot));
    }
}

impl CaveWindow {
    /// The segments follow each other without a gap.
    pub open spec fn wf(&self) -> bool {
        contiguous(self@)
    }

    /// The segments that have to be loaded when the ship is over the segment
    /// `ship_seg`, in the order in which `slide` takes them.
    pub fn missing(&self, ship_seg: i64) -> (r: Vec<i64>)
        requires
            self.wf(),
            i64::MIN <= ship_seg - HALF_WINDOW,
            ship_seg + HALF_WINDOW < i64::MAX,
        ensures
            r@.len() == missing(self@, ship_seg - HALF_WINDOW, ship_seg + HALF_WINDOW).len(),
            forall|j: int|
                0 <= j < r@.len() ==> (#[trigger] r@[j]) as int == missing(
                    self@,
                    ship_seg - HALF_WINDOW,
                    ship_seg + HALF_WINDOW,
                )[j],
    {
        let left: i64 = ship_seg - HALF_WINDOW;
        let right: i64 = ship_seg + HALF_WINDOW;
        let mut r: Vec<i64> = Vec::new();
        let n: usize = self.segs.len();
        let ghost k = kept(self@, left as int, right as int);
        proof {
            lemma_cuts(self@, left as int, right as int);
        }
        if n == 0 || self.segs[0].idx > right || self.segs[n - 1].idx < left {
            let mut idx: i64 = left;
            while idx <= right
                invariant
                    left <= idx <= right + 1,
                    right < i64::MAX,
                    k.len() == 0,
                    r@.len() == idx - left,
                    forall|j: int|
                        0 <= j < r@.len() ==> (#[trigger] r@[j]) as int == lacking(k, left as int, right as int)[j],
                decreases right + 1 - idx,
            {
                r.push(idx);
                idx = idx + 1;
            }
            return r;
        }
        let first: i64 = if self.segs[0].idx > left { self.segs[0].idx } else { left };
        let last: i64 = if self.segs[n - 1].idx < right { self.segs[n - 1].idx } else { right };
        assert(k.len() > 0 && k[0].idx == first && k.last().idx == last);
        let mut i: i64 = first;
        while i > left
            invariant
                left <= i <= first,
                k.len() > 0,
                k[0].idx == first,
                k.last().idx == last,
                last <= right,
                r@.len() == first - i,
                r@.len() <= lacking(k, left as int, right as int).len(),
                forall|j: int|
                    0 <= j < r@.len() ==> (#[trigger] r@[j]) as int == lacking(k, left as int, right as int)[j],
            decreases i - left,
        {
            i = i - 1;
            r.push(i);
        }
        i = last;
        while i < right
            invariant
                last <= i <= right < i64::MAX,
                k.len() > 0,
                k[0].idx == first,
                k.last().idx == last,
                left <= first,
                r@.len() == first - left + i - last,
                forall|j: int|
                    0 <= j < r@.len() ==> (#[trigger] r@[j]) as int == lacking(k, left as int, right as int)[j],
            decreases right - i,
        {
            i = i + 1;
            r.push(i);
        }
        r
    }

    /// Drops the segments that do not lie between `left` and `right`, with their
    /// colliders.
    fn evict(
        &mut self,
        left: i64,
        right: i64,
        store: &mut ColliderStore,
        islands: &mut IslandManager,
        bodies: &mut RigidBodySet,
    )
        requires
            old(self).wf(),
            left <= right,
            old(store).wf(),
            old(store).removals + old(store)@.dom().len() <= u32::MAX + remaining(
                old(self)@,
                old(store)@,
                left as int,
                right as int,
            ).dom().len(),
        ensures
            final(self)@ == kept(old(self)@, left as int, right as int),
            final(store).wf(),
            final(store)@ == remaining(old(self)@, old(store)@, left as int, right as int),
            final(store).removals + final(store)@.dom().len() == old(store).removals
                + old(store)@.dom().len(),
            unattached(evicted(old(self)@, left as int, right as int), old(store)@) ==> *final(bodies)
                == *old(bodies),
            *final(islands) == *old(islands),
    {
        let ghost s = self@;
        let ghost m = store@;
        let ghost gone = evicted(s, left as int, right as int);
        let ghost mut a: int = 0;
        let ghost b: int = s.len() as int;
        proof {
            lemma_cuts(s, left as int, right as int);
            assert(self@ == s.subrange(0, b));
            assert(m =~= m.remove_keys(handles(s.take(0))));
        }
        while self.segs.len() > 0 && self.segs[0].idx < left
            invariant
                contiguous(s),
                left <= right,
                s == old(self)@,
                m == old(store)@,
                m.dom().finite(),
                b == s.len(),
                0 <= a <= cut_left(s, left as int) <= s.len(),
                gone == s.take(cut_left(s, left as int)) + s.skip(cut_right(s, left as int, right as int)),
                cut_right(s, left as int, right as int) <= s.len(),
                self@ == s.subrange(a, b),
                store.wf(),
                store@ == m.remove_keys(handles(s.take(a))),
                old(store).removals + m.dom().len() <= u32::MAX + m.remove_keys(handles(gone)).dom().len(),
                store.removals + store@.dom().len() == old(store).removals + m.dom().len(),
                unattached(gone, m) ==> *bodies == *old(bodies),
                *islands == *old(islands),
            decreases self@.len(),
        {
            assert(self@[0] == s[a]);
            assert(a < cut_left(s, left as int));
            assert(gone[a] == s[a]);
            if let Some(g) = self.segs.pop_front() {
                proof {
                    assert(gone[a] == g);
                    assert forall|i: int| 0 <= i < s.take(a).len() implies gone.contains(
                        #[trigger] s.take(a)[i],
                    ) by {
                        assert(gone[i] == s[i]);
                    }
                    lemma_room_to_remove(m, gone, s.take(a), g);
                }
                store.remove(g.top, islands, bodies);
                store.remove(g.bot, islands, bodies);
                proof {
                    lemma_handles_push(s.take(a), g);
                    assert(s.take(a + 1) == s.take(a).push(g));
                    assert(store@ =~= m.remove_keys(handles(s.take(a + 1))));
                    a = a + 1;
                    assert(self@ == s.subrange(a, b));
                }
            }
        }
        assert(a == cut_left(s, left as int)) by {
            if a < s.len() {
                assert(self@[0] == s[a]);
            }
        }
        let ghost mut c: int = b;
        assert(s.take(a) + s.skip(c) == s.take(a));
        while self.segs.len() > 0 && self.segs[self.segs.len() - 1].idx > right
            invariant
                contiguous(s),
                left <= right,
                s == old(self)@,
                m == old(store)@,
                m.dom().finite(),
                b == s.len(),
                0 <= a == cut_left(s, left as int) <= cut_right(s, left as int, right as int) <= c <= s.len(),
                gone == s.take(cut_left(s, left as int)) + s.skip(cut_right(s, left as int, right as int)),
                self@ == s.subrange(a, c),
                store.wf(),
                store@ == m.remove_keys(handles(s.take(a) + s.skip(c))),
                old(store).removals + m.dom().len() <= u32::MAX + m.remove_keys(handles(gone)).dom().len(),
                store.removals + store@.dom().len() == old(store).removals + m.dom().len(),
                unattached(gone, m) ==> *bodies == *old(bodies),
                *islands == *old(islands),
            decreases self@.len(),
        {
            assert(self@.last() == s[c - 1]);
            assert(cut_right(s, left as int, right as int) <= c - 1);
            assert(gone[a + (c - 1 - cut_right(s, left as int, right as int))] == s[c - 1]);
            if let Some(g) = self.segs.pop_back() {
                proof {
                    let z = cut_right(s, left as int, right as int);
                    let part = s.take(a) + s.skip(c);
                    assert(gone[a + (c - 1 - z)] == g);
                    assert forall|i: int| 0 <= i < part.len() implies gone.contains(#[trigger] part[i]) by {
                        assert(part[i] == gone[if i < a {
                            i
                        } else {
                            i + c - z
                        }]);
                    }
                    lemma_room_to_remove(m, gone, part, g);
                }
                store.remove(g.top, islands, bodies);
                store.remove(g.bot, islands, bodies);
                proof {
                    lemma_handles_push(s.take(a) + s.skip(c), g);
                    let t = (s.take(a) + s.skip(c)).push(g);
                    let u = s.take(a) + s.skip(c - 1);
                    assert(t.drop_last() == s.take(a) + s.skip(c));
                    assert(u == t.drop_last().insert(a, t.last()));
                    lemma_handles_same(t, u, a);
                    assert(store@ =~= m.remove_keys(handles(s.take(a) + s.skip(c - 1))));
                    c = c - 1;
                    assert(self@ == s.subrange(a, c));
                }
            }
        }
        assert(c == cut_right(s, left as int, right as int)) by {
            if a < c {
                assert(self@.last() == s[c - 1]);
            }
        }
    }

    /// Loads the segments from the left end of the window out to `left`.
    fn load_left(
        &mut self,
        left: i64,
        walls: &mut VecDeque<(Collider, Collider)>,
        store: &mut ColliderStore,
    )
        requires
            old(self).wf(),
            0 <= lacking_left(old(self)@, left as int) <= old(walls)@.len(),
            old(store).wf(),
            old(store).has_room_for(2 * lacking_left(old(self)@, left as int), 0),
        ensures
            ({
                let k = old(self)@;
                let n = lacking_left(k, left as int);
                let f = final(self)@.take(n).reverse();
                &&& final(self)@ == f.reverse() + k
                &&& f.len() == n
                &&& forall|j: int| 0 <= j < n ==> (#[trigger] f[j]).idx == k[0].idx - 1 - j
                &&& final(walls)@ == old(walls)@.skip(n)
                &&& fresh_to(f, old(store)@)
                &&& final(store)@ == with_walls(old(store)@, f, old(walls)@)
                &&& final(store)@.dom().len() == old(store)@.dom().len() + 2 * n
            }),
            final(store).wf(),
            final(store).removals == old(store).removals,
    {
        let ghost k = self@;
        let ghost m = store@;
        let ghost c = walls@;
        let ghost n = lacking_left(k, left as int);
        let ghost mut f: Seq<WallSegment> = Seq::empty();
        assert(self@ == f.reverse() + k);
        while self.segs.len() > 0 && self.segs[0].idx > left
            invariant
                k == old(self)@,
                m == old(store)@,
                n == lacking_left(k, left as int),
                n <= c.len(),
                f.len() <= n,
                self@ == f.reverse() + k,
                forall|j: int| 0 <= j < f.len() ==> (#[trigger] f[j]).idx == k[0].idx - 1 - j,
                walls@ == c.skip(f.len() as int),
                fresh_to(f, m),
                store@ == with_walls(m, f, c),
                store.wf(),
                store.removals == old(store).removals,
                store.has_room_for(2 * (n - f.len()), 0),
                store@.dom().len() == m.dom().len() + 2 * f.len(),
            decreases n - f.len(),
        {
            proof {
                if f.len() > 0 {
                    assert(self@[0] == f[f.len() - 1]);
                } else {
                    assert(self@[0] == k[0]);
                }
            }
            let idx: i64 = self.segs[0].idx - 1;
            if let Some((top, bot)) = walls.pop_front() {
                let (t, b) = insert_seg(top, bot, store);
                let g = WallSegment { idx, top: t, bot: b };
                self.segs.push_front(g);
                proof {
                    assert(c[f.len() as int] == (top, bot));
                    lemma_with_walls_push(m, f, c, g);
                    let e = f.push(g);
                    assert(e.reverse() == seq![g] + f.reverse());
                    assert(self@ == e.reverse() + k);
                    f = e;
                    assert(walls@ == c.skip(f.len() as int));
                }
            }
        }
        proof {
            if k.len() > 0 {
                if f.len() > 0 {
                    assert(self@[0] == f[f.len() - 1]);
                } else {
                    assert(self@[0] == k[0]);
                }
            }
            assert(f.len() == n);
            assert(self@.take(n) == f.reverse());
            assert(f.reverse().reverse() == f);
        }
    }

    /// Loads the segments from `next` to `right`, after those of the window.
    fn load_right(
        &mut self,
        next: i64,
        right: i64,
        walls: VecDeque<(Collider, Collider)>,
        store: &mut ColliderStore,
    )
        requires
            next <= right + 1,
            right < i64::MAX,
            walls@.len() == right + 1 - next,
            old(store).wf(),
            old(store).has_room_for(2 * walls@.len() as int, 0),
        ensures
            ({
                let k = old(self)@;
                let f = final(self)@.skip(k.len() as int);
                &&& final(self)@ == k + f
                &&& f.len() == walls@.len()
                &&& forall|j: int| 0 <= j < f.len() ==> (#[trigger] f[j]).idx == next + j
                &&& fresh_to(f, old(store)@)
                &&& final(store)@ == with_walls(old(store)@, f, walls@)
                &&& final(store)@.dom().len() == old(store)@.dom().len() + 2 * walls@.len()
            }),
            final(store).wf(),
            final(store).removals == old(store).removals,
    {
        let ghost k = self@;
        let ghost m = store@;
        let ghost c = walls@;
        let mut walls = walls;
        let ghost mut f: Seq<WallSegment> = Seq::empty();
        let mut idx: i64 = next;
        assert(self@ == k + f);
        while idx <= right
            invariant
                k == old(self)@,
                m == old(store)@,
                next <= idx <= right + 1,
                right < i64::MAX,
                c.len() == right + 1 - next,
                f.len() == idx - next,
                self@ == k + f,
                forall|j: int| 0 <= j < f.len() ==> (#[trigger] f[j]).idx == next + j,
                walls@ == c.skip(f.len() as int),
                fresh_to(f, m),
                store@ == with_walls(m, f, c),
                store.wf(),
                store.removals == old(store).removals,
                store.has_room_for(2 * (c.len() - f.len()), 0),
                store@.dom().len() == m.dom().len() + 2 * f.len(),
            decreases right + 1 - idx,
        {
            if let Some((top, bot)) = walls.pop_front() {
                let (t, b) = insert_seg(top, bot, store);
                let g = WallSegment { idx, top: t, bot: b };
                self.segs.push_back(g);
                proof {
                    assert(c[f.len() as int] == (top, bot));
                    lemma_with_walls_push(m, f, c, g);
                    f = f.push(g);
                    assert(self@ == k + f);
                    assert(walls@ == c.skip(f.len() as int));
                }
            }
            idx = idx + 1;
        }
        assert(self@.skip(k.len() as int) == f);
    }

    /// Loads the segments that a window inside `left..=right` lacks.
    fn extend(
        &mut self,
        left: i64,
        right: i64,
        walls: VecDeque<(Collider, Collider)>,
        store: &mut ColliderStore,
    )
        requires
            old(self).wf(),
            left <= right < i64::MAX,
            forall|i: int| 0 <= i < old(self)@.len() ==> left <= (#[trigger] old(self)@[i]).idx <= right,
            walls@.len() == lacking(old(self)@, left as int, right as int).len(),
            old(store).wf(),
            old(store).has_room_for(2 * walls@.len() as int, 0),
        ensures
            final(self).wf(),
            ({
                let k = old(self)@;
                let n = lacking_left(k, left as int);
                let f = loaded(final(self)@, k, n);
                &&& final(self)@ == extended(k, f, n)
                &&& f.len() == walls@.len()
                &&& forall|j: int|
                    0 <= j < f.len() ==> (#[trigger] f[j]).idx == lacking(k, left as int, right as int)[j]
                &&& fresh_to(f, old(store)@)
                &&& final(store)@ == with_walls(old(store)@, f, walls@)
            }),
            final(store).wf(),
            final(store).removals == old(store).removals,
            final(store)@.dom().len() == old(store)@.dom().len() + 2 * walls@.len(),
    {
        let ghost k = self@;
        let ghost m = store@;
        let ghost c = walls@;
        let ghost n = lacking_left(k, left as int);
        let mut walls = walls;
        self.load_left(left, &mut walls, store);
        let ghost w = self@;
        let ghost o = store@;
        let ghost f = w.take(n).reverse();
        let last: usize = self.segs.len();
        proof {
            if k.len() > 0 {
                assert(w.last() == k.last());
            }
        }
        let next: i64 = if last == 0 { left } else { self.segs[last - 1].idx + 1 };
        self.load_right(next, right, walls, store);
        proof {
            let g = self@.skip(w.len() as int);
            lemma_with_walls_append(m, f, g, c);
            let e = f + g;
            assert(e.take(n) == f && e.skip(n) == g);
            assert(self@ == extended(k, e, n));
            assert(loaded(self@, k, n) == e) by {
                assert(self@.take(n) == f.reverse());
                assert(self@.skip(n + k.len()) == g);
                assert(f.reverse().reverse() == f);
            }
            assert forall|j: int| 0 <= j < e.len() implies (#[trigger] e[j]).idx == lacking(
                k,
                left as int,
                right as int,
            )[j] by {
                if j < n {
                    assert(e[j] == f[j]);
                } else {
                    assert(e[j] == g[j - n]);
                }
            }
            lemma_extended_contiguous(k, e, left as int, right as int);
        }
    }

    /// Moves the window so that the ship, over the segment `ship_seg`, is in its
    /// middle. The ceilings and floors of the missing segments come in `walls`, in
    /// the order that `missing` gives.
    pub fn slide(
        &mut self,
        ship_seg: i64,
        walls: VecDeque<(Collider, Collider)>,
        store: &mut ColliderStore,
        islands: &mut IslandManager,
        bodies: &mut RigidBodySet,
    )
        requires
            old(self).wf(),
            i64::MIN <= ship_seg - HALF_WINDOW,
            ship_seg + HALF_WINDOW < i64::MAX,
            walls@.len() == missing(old(self)@, ship_seg - HALF_WINDOW, ship_seg + HALF_WINDOW).len(),
            old(store).wf(),
            remaining(
                old(self)@,
                old(store)@,
                ship_seg - HALF_WINDOW,
                ship_seg + HALF_WINDOW,
            ).dom().len() + 2 * walls@.len() <= collider_limit(),
            old(store).removals + old(store)@.dom().len() <= u32::MAX + remaining(
                old(self)@,
                old(store)@,
                ship_seg - HALF_WINDOW,
                ship_seg + HALF_WINDOW,
            ).dom().len(),
        ensures
            final(self).wf(),
            final(store).wf(),
            slid(
                old(self)@,
                old(store)@,
                ship_seg - HALF_WINDOW,
                ship_seg + HALF_WINDOW,
                walls@,
                final(self)@,
                final(store)@,
            ),
            covers(final(self)@, ship_seg - HALF_WINDOW, ship_seg + HALF_WINDOW),
            final(self)@.len() == 161,
            forall|i: int| 0 <= i < 161 ==> (#[trigger] final(self)@[i]).idx == ship_seg - 80 + i,
            final(store).removals + final(store)@.dom().len() == old(store).removals
                + old(store)@.dom().len() + 2 * walls@.len(),
            unattached(
                evicted(old(self)@, ship_seg - HALF_WINDOW, ship_seg + HALF_WINDOW),
                old(store)@,
            ) ==> *final(bodies) == *old(bodies),
            *final(islands) == *old(islands),
    {
        let left: i64 = ship_seg - HALF_WINDOW;
        let right: i64 = ship_seg + HALF_WINDOW;
        proof {
            lemma_cuts(self@, left as int, right as int);
        }
        let ghost s = self@;
        let ghost m = store@;
        self.evict(left, right, store, islands, bodies);
        self.extend(left, right, walls, store);
        proof {
            law_window_covers(s, m, left as int, right as int, walls@, self@, store@);
        }
    }

    /// How many segments leave when the ship is over the segment `ship_seg`.
    pub fn evictions(&self, ship_seg: i64) -> (r: usize)
        requires
            self.wf(),
            i64::MIN <= ship_seg - HALF_WINDOW,
            ship_seg + HALF_WINDOW < i64::MAX,
        ensures
            r == evicted(self@, ship_seg - HALF_WINDOW, ship_seg + HALF_WINDOW).len(),
    {
        let left: i64 = ship_seg - HALF_WINDOW;
        let right: i64 = ship_seg + HALF_WINDOW;
        let n: usize = self.segs.len();
        proof {
            lemma_cuts(self@, left as int, right as int);
        }
        if n == 0 || self.segs[0].idx > right || self.segs[n - 1].idx < left {
            n
        } else {
            let first: i64 = if self.segs[0].idx > left { self.segs[0].idx } else { left };
            let last: i64 = if self.segs[n - 1].idx < right { self.segs[n - 1].idx } else { right };
            n - (last - first + 1) as usize
        }
    }

    /// Moves the window as `slide` does and says that it did. If the store can take no
    /// more removals, changes nothing instead; if it has no room for the missing
    /// segments even after the others have gone, they go and nothing is loaded.
    pub fn try_slide(
        &mut self,
        ship_seg: i64,
        walls: VecDeque<(Collider, Collider)>,
        store: &mut ColliderStore,
        islands: &mut IslandManager,
        bodies: &mut RigidBodySet,
    ) -> (r: bool)
        requires
            old(self).wf(),
            i64::MIN <= ship_seg - HALF_WINDOW,
            ship_seg + HALF_WINDOW < i64::MAX,
            walls@.len() == missing(old(self)@, ship_seg - HALF_WINDOW, ship_seg + HALF_WINDOW).len(),
            old(store).wf(),
        ensures
            ({
                let left = ship_seg - HALF_WINDOW;
                let right = ship_seg + HALF_WINDOW;
                let gone = evicted(old(self)@, left, right);
                let rest = remaining(old(self)@, old(store)@, left, right);
                let removable = old(store).removals + 2 * gone.len() <= u32::MAX;
                &&& r == (removable && rest.dom().len() + 2 * walls@.len() <= collider_limit())
                &&& r ==> slid(
                    old(self)@,
                    old(store)@,
                    left,
                    right,
                    walls@,
                    final(self)@,
                    final(store)@,
                ) && covers(final(self)@, left, right)
                &&& !removable ==> *final(self) == *old(self) && *final(store) == *old(store)
                &&& !r && removable ==> final(self)@ == kept(old(self)@, left, right) && final(store)@ == rest
                &&& removable ==> final(store).removals + rest.dom().len() == old(store).removals
                    + old(store)@.dom().len()
                &&& (!removable || unattached(gone, old(store)@)) ==> *final(bodies) == *old(bodies)
            }),
            r ==> final(self)@.len() == 161 && forall|i: int|
                0 <= i < 161 ==> (#[trigger] final(self)@[i]).idx == ship_seg - 80 + i,
            final(self).wf(),
            final(store).wf(),
            *final(islands) == *old(islands),
    {
        let left: i64 = ship_seg - HALF_WINDOW;
        let right: i64 = ship_seg + HALF_WINDOW;
        let n: usize = walls.len();
        let m: usize = self.evictions(ship_seg);
        let ghost s = self@;
        let ghost was = store@;
        if m as u64 > ((u32::MAX - store.removals) / 2) as u64 {
            return false;
        }
        proof {
            lemma_colliders_gone(was, evicted(s, left as int, right as int));
            lemma_cuts(s, left as int, right as int);
        }
        self.evict(left, right, store, islands, bodies);
        if n > usize::MAX / 2 || !store.has_room(2 * n, 0) {
            return false;
        }
        self.extend(left, right, walls, store);
        proof {
            law_window_covers(s, was, left as int, right as int, walls@, self@, store@);
        }
        true
    }

    /// The segments of the first window, from left to right.
    pub fn initial_segments() -> (r: Vec<i64>)
        ensures
            r@.len() == 2 * HALF_WINDOW + 1,
            forall|i: int| 0 <= i < r@.len() ==> (#[trigger] r@[i]) as int == i - HALF_WINDOW,
            r@.len() == 161,
            forall|i: int| 0 <= i < 161 ==> (#[trigger] r@[i]) as int == i - 80,
    {
        let mut r: Vec<i64> = Vec::new();
        let mut idx: i64 = -HALF_WINDOW;
        while idx <= HALF_WINDOW
            invariant
                -HALF_WINDOW <= idx <= HALF_WINDOW + 1,
                r@.len() == idx + HALF_WINDOW,
                forall|i: int| 0 <= i < r@.len() ==> (#[trigger] r@[i]) as int == i - HALF_WINDOW,
            decreases HALF_WINDOW + 1 - idx,
        {
            r.push(idx);
            idx = idx + 1;
        }
        r
    }

    /// The first window, around the start of the cave. Its ceilings and floors come
    /// in `walls`, from left to right.
    pub fn new(walls: VecDeque<(Collider, Collider)>, store: &mut ColliderStore) -> (r: Self)
        requires
            walls@.len() == 2 * HALF_WINDOW + 1,
            old(store).wf(),
            old(store).has_room_for(2 * walls@.len() as int, 0),
        ensures
            r.wf(),
            r@.len() == 2 * HALF_WINDOW + 1,
            forall|i: int| 0 <= i < r@.len() ==> (#[trigger] r@[i]).idx == i - HALF_WINDOW,
            r@.len() == 161,
            forall|i: int| 0 <= i < 161 ==> (#[trigger] r@[i]).idx == i - 80,
            fresh_to(r@, old(store)@),
            final(store)@ == with_walls(old(store)@, r@, walls@),
            final(store)@.dom().len() == old(store)@.dom().len() + 2 * walls@.len(),
            final(store).wf(),
            final(store).removals == old(store).removals,
    {
        let mut r = CaveWindow { segs: VecDeque::new() };
        let ghost k = r@;
        r.load_right(-HALF_WINDOW, HALF_WINDOW, walls, store);
        assert(r@.skip(k.len() as int) == r@);
        r
    }
}

/// Whether `s` consists of the segments from `left` to `right`.
pub open spec fn covers(s: Seq<WallSegment>, left: int, right: int) -> bool {
    &&& s.len() == right - left + 1
    &&& forall|i: int| 0 <= i < s.len() ==> (#[trigger] s[i]).idx == left + i
}

/// Wherever the window was before, it comes to cover exactly the segments from
/// `left` to `right`.
pub proof fn law_window_covers(
    s: Seq<WallSegment>,
    m: Map<(u32, u32), (Seq<u8>, bool)>,
    left: int,
    right: int,
    walls: Seq<(Collider, Collider)>,
    t: Seq<WallSegment>,
    o: Map<(u32, u32), (Seq<u8>, bool)>,
)
    requires
        contiguous(s),
        left <= right,
        slid(s, m, left, right, walls, t, o),
    ensures
        covers(t, left, right),
        t.len() == right - left + 1,
        forall|i: int| 0 <= i < t.len() ==> (#[trigger] t[i]).idx == left + i,
{
    lemma_cuts(s, left, right);
    let k = kept(s, left, right);
    let n = lacking_left(k, left);
    let f = loaded(t, k, n);
    let a = cut_left(s, left);
    if k.len() == 0 {
        assert(t == f);
    } else {
        assert(k[0] == s[a] && k.last() == s[cut_right(s, left, right) - 1]);
        assert forall|j: int| 0 <= j < t.len() implies (#[trigger] t[j]).idx == left + j by {
            if j < n {
                assert(t[j] == f[n - 1 - j]);
            } else if j < n + k.len() {
                assert(t[j] == k[j - n]);
                assert(k[j - n] == s[a + j - n]);
            } else {
                assert(t[j] == f[j - k.len()]);
            }
        }
    }
}

proof fn lemma_covered(s: Seq<WallSegment>, left: int, right: int)
    requires
        left <= right,
        covers(s, left, right),
    ensures
        kept(s, left, right) == s,
        lacking_left(s, left) == 0,
        missing(s, left, right).len() == 0,
        evicted(s, left, right).len() == 0,
{
    lemma_filter_all(s, within(left, right));
    lemma_filter_none(s, outside(left, right));
}

proof fn lemma_nothing_evicted(m: Map<(u32, u32), (Seq<u8>, bool)>, gone: Seq<WallSegment>)
    requires
        gone.len() == 0,
    ensures
        m.remove_keys(handles(gone)) == m,
{
    assert(m.remove_keys(handles(gone)) =~= m);
}

proof fn lemma_nothing_loaded(k: Seq<WallSegment>, f: Seq<WallSegment>)
    requires
        f.len() == 0,
    ensures
        extended(k, f, 0) == k,
{
    assert(extended(k, f, 0) =~= k);
}

/// A window that covers `left..=right` already is not changed, nor are the
/// colliders.
pub proof fn law_slide_in_place_changes_nothing(
    s: Seq<WallSegment>,
    m: Map<(u32, u32), (Seq<u8>, bool)>,
    left: int,
    right: int,
    walls: Seq<(Collider, Collider)>,
    t: Seq<WallSegment>,
    o: Map<(u32, u32), (Seq<u8>, bool)>,
)
    requires
        left <= right,
        covers(s, left, right),
        slid(s, m, left, right, walls, t, o),
    ensures
        missing(s, left, right).len() == 0,
        evicted(s, left, right).len() == 0,
        t == s,
        o == m,
{
    lemma_covered(s, left, right);
    lemma_nothing_evicted(m, evicted(s, left, right));
    lemma_nothing_loaded(s, loaded(t, s, 0));
}

/// When a window that covers `left..=right` moves by `d` segments, as many segments
/// are loaded as it moves by, and as many leave; if it moves by more than its width,
/// all of them.
pub proof fn law_slide_loads_the_distance(s: Seq<WallSegment>, left: int, right: int, d: int)
    requires
        left <= right,
        covers(s, left, right),
    ensures
        ({
            let distance = if d >= 0 { d } else { -d };
            let width = right - left + 1;
            let n = if distance < width { distance } else { width };
            missing(s, left + d, right + d).len() == n && evicted(s, left + d, right + d).len() == n
        }),
{
    lemma_cuts(s, left + d, right + d);
    let k = kept(s, left + d, right + d);
    let a = cut_left(s, left + d);
    let b = cut_right(s, left + d, right + d);
    if a < b {
        assert(k[0] == s[a] && k.last() == s[b - 1]);
    }
}

/// The segments that stay are backed by the colliders that are left.
proof fn lemma_kept_are_backed(
    s: Seq<WallSegment>,
    m: Map<(u32, u32), (Seq<u8>, bool)>,
    left: int,
    right: int,
)
    requires
        contiguous(s),
        left <= right,
        backed(s, m),
    ensures
        backed(kept(s, left, right), remaining(s, m, left, right)),
{
    lemma_cuts(s, left, right);
    let k = kept(s, left, right);
    let gone = evicted(s, left, right);
    let rest = remaining(s, m, left, right);
    let a = cut_left(s, left);
    let b = cut_right(s, left, right);
    assert forall|i: int| 0 <= i < k.len() implies #[trigger] k[i] == s[a + i] by {}
    assert forall|i: int| 0 <= i < k.len() implies rest.dom().contains((#[trigger] k[i]).top)
        && rest.dom().contains(k[i].bot) by {
        if handles(gone).contains(k[i].top) || handles(gone).contains(k[i].bot) {
            let h = if handles(gone).contains(k[i].top) {
                k[i].top
            } else {
                k[i].bot
            };
            let j = choose|j: int| 0 <= j < gone.len() && #[trigger] holds(gone[j], h);
            let l = if j < a {
                j
            } else {
                b + j - a
            };
            assert(gone[j] == s[l]);
            assert(l != a + i);
        }
    }
}

/// Segments that are backed by the colliders, and segments that join them, are backed
/// together.
proof fn lemma_joined_are_backed(
    k: Seq<WallSegment>,
    rest: Map<(u32, u32), (Seq<u8>, bool)>,
    f: Seq<WallSegment>,
    c: Seq<(Collider, Collider)>,
)
    requires
        backed(k, rest),
        fresh_to(f, rest),
    ensures
        backed(k + f, with_walls(rest, f, c)),
{
    let u = k + f;
    let o = with_walls(rest, f, c);
    law_loaded_walls_are_backed(rest, f, c);
    lemma_with_walls_dom(rest, f, c);
    assert forall|i: int| 0 <= i < u.len() implies #[trigger] u[i] == (if i < k.len() {
        k[i]
    } else {
        f[i - k.len()]
    }) by {}
    assert forall|i: int| 0 <= i < k.len() implies o.dom().contains((#[trigger] k[i]).top)
        && o.dom().contains(k[i].bot) && !o[k[i].top].1 && !o[k[i].bot].1 by {
        lemma_with_walls_value(rest, f, c, k[i].top);
        lemma_with_walls_value(rest, f, c, k[i].bot);
    }
    assert forall|i: int, j: int| 0 <= i < u.len() && 0 <= j < u.len() && i != j implies !holds(
        #[trigger] u[i],
        (#[trigger] u[j]).top,
    ) && !holds(u[i], u[j].bot) by {
        if i < k.len() && j >= k.len() {
            assert(u[j] == f[j - k.len()] && u[i] == k[i]);
        } else if i >= k.len() && j < k.len() {
            assert(u[i] == f[i - k.len()] && u[j] == k[j]);
        }
    }
}

/// The order of the segments does not matter for their backing.
proof fn lemma_backed_in_any_order(
    u: Seq<WallSegment>,
    t: Seq<WallSegment>,
    m: Map<(u32, u32), (Seq<u8>, bool)>,
    at: spec_fn(int) -> int,
)
    requires
        backed(u, m),
        forall|j: int| 0 <= j < t.len() ==> 0 <= at(j) < u.len() && #[trigger] t[j] == u[at(j)],
        forall|i: int, j: int|
            #![trigger t[i], t[j]]
            0 <= i < t.len() && 0 <= j < t.len() && i != j ==> at(i) != at(j),
    ensures
        backed(t, m),
{
    assert forall|i: int, j: int| 0 <= i < t.len() && 0 <= j < t.len() && i != j implies !holds(
        #[trigger] t[i],
        (#[trigger] t[j]).top,
    ) && !holds(t[i], t[j].bot) by {
        assert(t[i] == u[at(i)] && t[j] == u[at(j)]);
        assert(at(i) != at(j));
    }
}

/// The walls of a window stay in the collider set, each under a handle of its own:
/// what the set holds for them follows the window.
pub proof fn law_slide_keeps_walls_backed(
    s: Seq<WallSegment>,
    m: Map<(u32, u32), (Seq<u8>, bool)>,
    left: int,
    right: int,
    walls: Seq<(Collider, Collider)>,
    t: Seq<WallSegment>,
    o: Map<(u32, u32), (Seq<u8>, bool)>,
)
    requires
        contiguous(s),
        left <= right,
        backed(s, m),
        slid(s, m, left, right, walls, t, o),
    ensures
        backed(t, o),
{
    let k = kept(s, left, right);
    let n = lacking_left(k, left);
    let f = loaded(t, k, n);
    lemma_kept_are_backed(s, m, left, right);
    lemma_joined_are_backed(k, remaining(s, m, left, right), f, walls);
    lemma_cuts(s, left, right);
    let u = k + f;
    let at = |j: int|
        if j < n {
            k.len() + n - 1 - j
        } else if j < n + k.len() {
            j - n
        } else {
            j
        };
    assert(0 <= n <= f.len());
    assert forall|j: int| 0 <= j < t.len() implies 0 <= at(j) < u.len() && #[trigger] t[j] == u[at(j)] by {}
    lemma_backed_in_any_order(u, t, o, at);
}

/// What the walls leave alone stays as it is, and the walls are attached to no body.
proof fn lemma_with_walls_value(
    m: Map<(u32, u32), (Seq<u8>, bool)>,
    f: Seq<WallSegment>,
    c: Seq<(Collider, Collider)>,
    h: (u32, u32),
)
    ensures
        handles(f).contains(h) ==> !with_walls(m, f, c)[h].1,
        !handles(f).contains(h) && m.dom().contains(h) ==> with_walls(m, f, c)[h] == m[h],
    decreases f.len(),
{
    if f.len() > 0 {
        let e = f.drop_last();
        let g = f.last();
        lemma_with_walls_value(m, e, c, h);
        lemma_handles_push(e, g);
        lemma_with_walls_dom(m, e, c);
        assert(f == e.push(g));
        let w = with_walls(m, e, c);
        let x = w.insert(g.top, (collider_data(c[f.len() - 1].0), false));
        assert(with_walls(m, f, c) == x.insert(g.bot, (collider_data(c[f.len() - 1].1), false)));
        if h != g.top && h != g.bot {
            assert(with_walls(m, f, c)[h] == w[h]);
        }
    }
}

/// The colliders that are no walls of the window stay in the set as they are.
pub proof fn law_slide_leaves_other_colliders(
    s: Seq<WallSegment>,
    m: Map<(u32, u32), (Seq<u8>, bool)>,
    left: int,
    right: int,
    walls: Seq<(Collider, Collider)>,
    t: Seq<WallSegment>,
    o: Map<(u32, u32), (Seq<u8>, bool)>,
    h: (u32, u32),
)
    requires
        contiguous(s),
        left <= right,
        slid(s, m, left, right, walls, t, o),
        m.dom().contains(h),
        !handles(s).contains(h),
    ensures
        o.dom().contains(h),
        o[h] == m[h],
        !handles(t).contains(h),
{
    lemma_cuts(s, left, right);
    let k = kept(s, left, right);
    let n = lacking_left(k, left);
    let f = loaded(t, k, n);
    let gone = evicted(s, left, right);
    let rest = m.remove_keys(handles(gone));
    let a = cut_left(s, left);
    let b = cut_right(s, left, right);
    if handles(gone).contains(h) {
        let j = choose|j: int| 0 <= j < gone.len() && #[trigger] holds(gone[j], h);
        assert(holds(
            s[if j < a {
                j
            } else {
                b + j - a
            }],
            h,
        ));
    }
    assert(rest.dom().contains(h));
    if handles(f).contains(h) {
        let j = choose|j: int| 0 <= j < f.len() && #[trigger] holds(f[j], h);
        assert(!rest.dom().contains(f[j].top) && !rest.dom().contains(f[j].bot));
    }
    lemma_with_walls_dom(rest, f, walls);
    lemma_with_walls_value(rest, f, walls, h);
    if handles(t).contains(h) {
        let j = choose|j: int| 0 <= j < t.len() && #[trigger] holds(t[j], h);
        if j < n {
            assert(holds(f[n - 1 - j], h));
        } else if j < n + k.len() {
            assert(holds(s[a + j - n], h));
        } else {
            assert(holds(f[j - k.len()], h));
        }
    }
}

/// The walls that a window has just loaded are backed by the collider set.
pub proof fn law_loaded_walls_are_backed(
    m: Map<(u32, u32), (Seq<u8>, bool)>,
    f: Seq<WallSegment>,
    c: Seq<(Collider, Collider)>,
)
    requires
        fresh_to(f, m),
    ensures
        backed(f, with_walls(m, f, c)),
{
    lemma_with_walls_dom(m, f, c);
    assert forall|i: int| 0 <= i < f.len() implies handles(f).contains((#[trigger] f[i]).top)
        && handles(f).contains(f[i].bot) && !with_walls(m, f, c)[f[i].top].1 && !with_walls(m, f, c)[f[i].bot].1 by {
        assert(holds(f[i], f[i].top) && holds(f[i], f[i].bot));
        lemma_with_walls_value(m, f, c, f[i].top);
        lemma_with_walls_value(m, f, c, f[i].bot);
    }
}

/// Whether the colliders of the segments are among `m` and have the data that
/// `world` gives for the ceiling and the floor of each place.
pub open spec fn shows(
    s: Seq<WallSegment>,
    m: Map<(u32, u32), (Seq<u8>, bool)>,
    world: spec_fn(int) -> (Seq<u8>, Seq<u8>),
) -> bool {
    &&& backed(s, m)
    &&& forall|i: int|
        0 <= i < s.len() ==> m[(#[trigger] s[i]).top].0 == world(s[i].idx as int).0 && m[s[i].bot].0
            == world(s[i].idx as int).1
}

/// The walls have the data of the colliders that they were loaded with.
proof fn lemma_with_walls_data(
    m: Map<(u32, u32), (Seq<u8>, bool)>,
    f: Seq<WallSegment>,
    c: Seq<(Collider, Collider)>,
    j: int,
)
    requires
        distinct(f),
        0 <= j < f.len(),
    ensures
        with_walls(m, f, c)[f[j].top].0 == collider_data(c[j].0),
        with_walls(m, f, c)[f[j].bot].0 == collider_data(c[j].1),
    decreases f.len(),
{
    let n = f.len() - 1;
    assert(f[j].top != f[j].bot);
    if j < n {
        let e = f.drop_last();
        assert forall|i: int| 0 <= i < e.len() implies (#[trigger] e[i]).top != e[i].bot by {
            assert(e[i] == f[i]);
        }
        assert forall|i: int, l: int| 0 <= i < e.len() && 0 <= l < e.len() && i != l implies !holds(
            #[trigger] e[i],
            (#[trigger] e[l]).top,
        ) && !holds(e[i], e[l].bot) by {
            assert(e[i] == f[i] && e[l] == f[l]);
        }
        lemma_with_walls_data(m, e, c, j);
        lemma_with_walls_dom(m, e, c);
        assert(e[j] == f[j]);
        assert(holds(e[j], f[j].top) && holds(e[j], f[j].bot));
        assert(!holds(f[n], f[j].top) && !holds(f[n], f[j].bot));
    }
}

/// The cave is the same whenever it is flown through: if the walls of a window are
/// those of `world`, and so are the ones that a move loads, then the walls are those
/// of `world` after the move.
pub proof fn law_slide_shows_the_world(
    s: Seq<WallSegment>,
    m: Map<(u32, u32), (Seq<u8>, bool)>,
    left: int,
    right: int,
    walls: Seq<(Collider, Collider)>,
    t: Seq<WallSegment>,
    o: Map<(u32, u32), (Seq<u8>, bool)>,
    world: spec_fn(int) -> (Seq<u8>, Seq<u8>),
)
    requires
        contiguous(s),
        left <= right,
        shows(s, m, world),
        slid(s, m, left, right, walls, t, o),
        forall|j: int|
            0 <= j < missing(s, left, right).len() ==> (
            collider_data(walls[j].0),
            collider_data(walls[j].1),
        ) == world(#[trigger] missing(s, left, right)[j]),
    ensures
        shows(t, o, world),
{
    law_slide_keeps_walls_backed(s, m, left, right, walls, t, o);
    lemma_cuts(s, left, right);
    let k = kept(s, left, right);
    let n = lacking_left(k, left);
    let f = loaded(t, k, n);
    let rest = m.remove_keys(handles(evicted(s, left, right)));
    let a = cut_left(s, left);
    lemma_with_walls_dom(rest, f, walls);
    assert forall|i: int| 0 <= i < t.len() implies o[(#[trigger] t[i]).top].0 == world(t[i].idx as int).0
        && o[t[i].bot].0 == world(t[i].idx as int).1 by {
        if n <= i < n + k.len() {
            let g = k[i - n];
            assert(t[i] == g && g == s[a + i - n]);
            lemma_with_walls_value(rest, f, walls, g.top);
            lemma_with_walls_value(rest, f, walls, g.bot);
            assert forall|h: (u32, u32)| h == g.top || h == g.bot implies !handles(f).contains(h) by {
                if handles(f).contains(h) {
                    let j = choose|j: int| 0 <= j < f.len() && #[trigger] holds(f[j], h);
                    let l = if j < n {
                        n - 1 - j
                    } else {
                        j + k.len()
                    };
                    assert(t[l] == f[j]);
                    assert(l != i);
                    assert(!holds(t[l], t[i].top) && !holds(t[l], t[i].bot));
                }
            }
            assert(o.dom().contains(g.top) && o.dom().contains(g.bot));
            assert(rest.dom().contains(g.top) && rest.dom().contains(g.bot));
        } else {
            let j = if i < n {
                n - 1 - i
            } else {
                i - k.len()
            };
            assert(t[i] == f[j]);
            lemma_with_walls_data(rest, f, walls, j);
            assert(f[j].idx == missing(s, left, right)[j]);
        }
    }
}

/// The first window shows the world that its walls were taken from.
pub proof fn law_first_window_shows_the_world(
    m: Map<(u32, u32), (Seq<u8>, bool)>,
    f: Seq<WallSegment>,
    c: Seq<(Collider, Collider)>,
    world: spec_fn(int) -> (Seq<u8>, Seq<u8>),
)
    requires
        fresh_to(f, m),
        forall|j: int|
            0 <= j < f.len() ==> (collider_data(c[j].0), collider_data(c[j].1)) == world(
                (#[trigger] f[j]).idx as int,
            ),
    ensures
        shows(f, with_walls(m, f, c), world),
{
    law_loaded_walls_are_backed(m, f, c);
    assert forall|i: int| 0 <= i < f.len() implies with_walls(m, f, c)[(#[trigger] f[i]).top].0 == world(
        f[i].idx as int,
    ).0 && with_walls(m, f, c)[f[i].bot].0 == world(f[i].idx as int).1 by {
        lemma_with_walls_data(m, f, c, i);
    }
}

/// A segment that is loaded twice gets handles of its own each time, and is the same
/// each time: if the colliders of the first time are still there, unchanged, when it
/// is loaded again, the set holds four colliders for it, two ceilings with the same
/// data and two floors with the same data.
pub proof fn law_segment_loaded_twice(
    m: Map<(u32, u32), (Seq<u8>, bool)>,
    o: Map<(u32, u32), (Seq<u8>, bool)>,
    p: Map<(u32, u32), (Seq<u8>, bool)>,
    q: Map<(u32, u32), (Seq<u8>, bool)>,
    top: Seq<u8>,
    bot: Seq<u8>,
    first: ((u32, u32), (u32, u32)),
    second: ((u32, u32), (u32, u32)),
)
    requires
        inserted(m, top, bot, first, o),
        p.dom().contains(first.0),
        p.dom().contains(first.1),
        p[first.0] == o[first.0],
        p[first.1] == o[first.1],
        inserted(p, top, bot, second, q),
    ensures
        first.0 != first.1,
        second.0 != second.1,
        first.0 != second.0 && first.0 != second.1,
        first.1 != second.0 && first.1 != second.1,
        q.dom().contains(first.0) && q.dom().contains(first.1),
        q.dom().contains(second.0) && q.dom().contains(second.1),
        q[first.0] == q[second.0],
        q[first.1] == q[second.1],
{
}

/// Neighbouring segments meet: one ends where the next begins, as long as single
/// precision can tell whole metres apart there. The two ends have the same word.
pub proof fn law_segments_meet(idx: i64, end: u32, start: u32)
    requires
        -5_592_405 <= idx < 5_592_405,
        encodes(end, right_end(idx)),
        encodes(start, left_end((idx + 1) as i64)),
    ensures
        left_end(idx) == 3 * idx * METRE,
        right_end(idx) == 3 * (idx + 1) * METRE,
        right_end(idx) == left_end((idx + 1) as i64),
        end == start,
{
    let next = (idx + 1) as i64;
    lemma_left_end(idx);
    lemma_left_end(next);
    lemma_single_between(3 * (idx + 1) * 0x100_0000, 3 * (idx + 1), 3 * (idx + 1));
    lemma_one_word(end, start, right_end(idx));
}

/// Segments two hundred apart lie six hundred metres apart, which is the period of
/// the cave, as long as single precision can tell whole metres apart there.
pub proof fn law_segments_repeat(idx: i64)
    requires
        -5_592_405 <= idx,
        idx + 200 < 5_592_405,
    ensures
        left_end((idx + 200) as i64) == left_end(idx) + 600 * METRE,
        right_end((idx + 200) as i64) == right_end(idx) + 600 * METRE,
{
    let far = (idx + 200) as i64;
    lemma_left_end(idx);
    lemma_left_end(far);
    lemma_single_between(3 * (idx + 1) * 0x100_0000, 3 * (idx + 1), 3 * (idx + 1));
    lemma_single_between(3 * (far + 1) * 0x100_0000, 3 * (far + 1), 3 * (far + 1));
}

proof fn lemma_left_end(idx: i64)
    requires
        -5_592_405 <= idx <= 5_592_405,
    ensures
        left_end(idx) == 3 * idx * METRE,
{
    lemma_exact(if idx >= 0 { idx as int } else { -idx });
    assert(idx * SEG_LEN == 3 * idx) by (nonlinear_arith);
    lemma_single_between(3 * idx * 0x100_0000, 3 * idx, 3 * idx);
}

/// The ends of a segment are three metres times its place, and three metres more; each
/// step is rounded.
pub proof fn law_ends_are_rounded(idx: i64)
    ensures
        left_end(idx) == single(0x300_0000 * single(idx as int)),
        right_end(idx) == single(left_end(idx) + 0x300_0000),
{
    let i = single(idx as int);
    assert(i * SEG_LEN == 3 * i) by (nonlinear_arith);
    assert((3 * i) * METRE == 0x300_0000 * i) by (nonlinear_arith);
    assert(SEG_LEN * METRE == 0x300_0000) by (nonlinear_arith);
}

/// A window without a gap has its segments in the order of their places, one after the
/// other; each segment stays or leaves, in that order: those from `left` to `right`
/// stay, and those to the left and to the right of that leave.
pub proof fn law_segments_stay_or_leave(s: Seq<WallSegment>, left: int, right: int)
    requires
        forall|i: int| 0 <= i < s.len() ==> (#[trigger] s[i]).idx == s[0].idx + i,
        left <= right,
    ensures
        contiguous(s),
        forall|g: WallSegment| #[trigger]
            kept(s, left, right).contains(g) <==> s.contains(g) && left <= g.idx && g.idx <= right,
        forall|g: WallSegment| #[trigger]
            evicted(s, left, right).contains(g) <==> s.contains(g) && (g.idx < left || right < g.idx),
        kept(s, left, right).len() + evicted(s, left, right).len() == s.len(),
        forall|i: int, j: int|
            0 <= i < j < kept(s, left, right).len() ==> (#[trigger] kept(s, left, right)[i]).idx < (
            #[trigger] kept(s, left, right)[j]).idx,
        forall|i: int, j: int|
            0 <= i < j < evicted(s, left, right).len() ==> (#[trigger] evicted(s, left, right)[i]).idx < (
            #[trigger] evicted(s, left, right)[j]).idx,
{
    assert(contiguous(s));
    lemma_cuts(s, left, right);
    let a = cut_left(s, left);
    let b = cut_right(s, left, right);
    let k = kept(s, left, right);
    let e = evicted(s, left, right);
    let at = |i: int|
        if i < a {
            i
        } else {
            i - a + b
        };
    assert forall|i: int| 0 <= i < k.len() implies #[trigger] k[i] == s[a + i] by {}
    assert forall|i: int| 0 <= i < e.len() implies #[trigger] e[i] == s[at(i)] by {}
    assert forall|g: WallSegment| #[trigger]
        k.contains(g) <==> s.contains(g) && left <= g.idx && g.idx <= right by {
        if k.contains(g) {
            let i = choose|i: int| 0 <= i < k.len() && k[i] == g;
            assert(s[a + i] == g);
        }
        if s.contains(g) && left <= g.idx && g.idx <= right {
            let x = choose|x: int| 0 <= x < s.len() && s[x] == g;
            assert(a <= x < b);
            assert(k[x - a] == g);
        }
    }
    assert forall|g: WallSegment| #[trigger]
        e.contains(g) <==> s.contains(g) && (g.idx < left || right < g.idx) by {
        if e.contains(g) {
            let i = choose|i: int| 0 <= i < e.len() && e[i] == g;
            assert(s[at(i)] == g);
        }
        if s.contains(g) && (g.idx < left || right < g.idx) {
            let x = choose|x: int| 0 <= x < s.len() && s[x] == g;
            assert(x < a || b <= x);
            if x < a {
                assert(e[x] == g);
            } else {
                assert(e[x - b + a] == g);
            }
        }
    }
}

/// The segments to load are all those from `left` to `right` that the window does not
/// have, once each. Those to the left of what stays come first, from right to left,
/// and those to the right of it come last, from left to right; if nothing stays, all
/// come from left to right.
pub proof fn law_missing_segments_are_not_there(s: Seq<WallSegment>, left: int, right: int)
    requires
        forall|i: int| 0 <= i < s.len() ==> (#[trigger] s[i]).idx == s[0].idx + i,
        left <= right,
    ensures
        forall|x: int| #[trigger]
            missing(s, left, right).contains(x) <==> left <= x && x <= right && (forall|i: int|
                0 <= i < s.len() ==> (#[trigger] s[i]).idx != x),
        missing(s, left, right).no_duplicates(),
        forall|i: int, j: int|
            0 <= i < j < missing(s, left, right).len() ==> {
                let x = #[trigger] missing(s, left, right)[i];
                let y = #[trigger] missing(s, left, right)[j];
                y < x ==> (forall|l: int|
                    0 <= l < s.len() && left <= (#[trigger] s[l]).idx <= right ==> x < s[l].idx) && (exists|
                    l: int,
                | 0 <= l < s.len() && left <= (#[trigger] s[l]).idx <= right)
            },
        forall|i: int, j: int, l: int|
            0 <= i < j < missing(s, left, right).len() && 0 <= l < s.len() && left <= (#[trigger] s[l]).idx
                <= right && (#[trigger] missing(s, left, right)[i]) < s[l].idx && (#[trigger] missing(
                s,
                left,
                right,
            )[j]) < s[l].idx ==> missing(s, left, right)[j] < missing(s, left, right)[i],
{
    assert(contiguous(s));
    lemma_cuts(s, left, right);
    let a = cut_left(s, left);
    let b = cut_right(s, left, right);
    let k = kept(s, left, right);
    let n = lacking_left(k, left);
    let m = missing(s, left, right);
    assert forall|i: int| 0 <= i < s.len() && left <= (#[trigger] s[i]).idx <= right implies a <= i < b by {}
    assert forall|i: int| a <= i < b implies left <= (#[trigger] s[i]).idx <= right by {}
    if k.len() == 0 {
        assert forall|x: int| #[trigger] m.contains(x) <==> left <= x && x <= right && (forall|i: int|
            0 <= i < s.len() ==> (#[trigger] s[i]).idx != x) by {
            if left <= x && x <= right {
                assert(m[x - left] == x);
            }
        }
    } else {
        assert(k[0] == s[a] && k.last() == s[b - 1]);
        let first = s[a].idx as int;
        let last = s[b - 1].idx as int;
        assert(last == first + (b - 1 - a));
        assert forall|x: int| #[trigger] m.contains(x) <==> left <= x && x <= right && (forall|i: int|
            0 <= i < s.len() ==> (#[trigger] s[i]).idx != x) by {
            if left <= x < first {
                assert(m[first - 1 - x] == x);
            }
            if last < x <= right {
                assert(m[n + x - last - 1] == x);
            }
            if first <= x <= last {
                assert(s[a + x - first].idx == x);
            }
            if m.contains(x) {
                let j = choose|j: int| 0 <= j < m.len() && m[j] == x;
                assert(x < first || last < x);
                assert(left <= x <= right);
                assert forall|i: int| 0 <= i < s.len() implies (#[trigger] s[i]).idx != x by {
                    if s[i].idx == x {
                        assert(a <= i < b);
                    }
                }
            }
        }
        assert forall|i: int, j: int| 0 <= i < j < m.len() implies {
            let x = #[trigger] m[i];
            let y = #[trigger] m[j];
            y < x ==> (forall|l: int|
                0 <= l < s.len() && left <= (#[trigger] s[l]).idx <= right ==> x < s[l].idx) && (exists|
                l: int,
            | 0 <= l < s.len() && left <= (#[trigger] s[l]).idx <= right)
        } by {
            if m[j] < m[i] {
                assert(m[i] < first);
                assert(left <= s[a].idx <= right);
            }
        }
        assert forall|i: int, j: int, l: int|
            0 <= i < j < m.len() && 0 <= l < s.len() && left <= (#[trigger] s[l]).idx <= right && (
            #[trigger] m[i]) < s[l].idx && (#[trigger] m[j]) < s[l].idx implies m[j] < m[i] by {
            assert(s[l].idx <= last);
        }
    }
}

/// What the joining of walls does: the colliders of each segment stand under its two
/// handles, attached to no body, all else stays as it is, and nothing else is added.
pub proof fn law_walls_join_the_colliders(
    m: Map<(u32, u32), (Seq<u8>, bool)>,
    f: Seq<WallSegment>,
    c: Seq<(Collider, Collider)>,
    h: (u32, u32),
    i: int,
)
    requires
        fresh_to(f, m),
    ensures
        0 <= i < f.len() ==> {
            &&& f[i].top != f[i].bot
            &&& !m.dom().contains(f[i].top) && !m.dom().contains(f[i].bot)
            &&& forall|j: int|
                0 <= j < f.len() && j != i ==> f[i].top != (#[trigger] f[j]).top && f[i].top != f[j].bot
                    && f[i].bot != f[j].top && f[i].bot != f[j].bot
            &&& with_walls(m, f, c).dom().contains(f[i].top)
            &&& with_walls(m, f, c).dom().contains(f[i].bot)
            &&& with_walls(m, f, c)[f[i].top] == (collider_data(c[i].0), false)
            &&& with_walls(m, f, c)[f[i].bot] == (collider_data(c[i].1), false)
        },
        m.dom().contains(h) ==> with_walls(m, f, c).dom().contains(h) && with_walls(m, f, c)[h] == m[h],
        with_walls(m, f, c).dom().contains(h) ==> m.dom().contains(h) || exists|j: int|
            0 <= j < f.len() && ((#[trigger] f[j]).top == h || f[j].bot == h),
{
    lemma_with_walls_dom(m, f, c);
    lemma_with_walls_value(m, f, c, h);
    if 0 <= i < f.len() {
        assert(holds(f[i], f[i].top) && holds(f[i], f[i].bot));
        lemma_with_walls_value(m, f, c, f[i].top);
        lemma_with_walls_value(m, f, c, f[i].bot);
        lemma_with_walls_data(m, f, c, i);
        assert forall|j: int| 0 <= j < f.len() && j != i implies f[i].top != (#[trigger] f[j]).top && f[i].top
            != f[j].bot && f[i].bot != f[j].top && f[i].bot != f[j].bot by {
            assert(!holds(f[j], f[i].top) && !holds(f[j], f[i].bot));
        }
    }
    if handles(f).contains(h) {
        let j = choose|j: int| 0 <= j < f.len() && #[trigger] holds(f[j], h);
        assert(f[j].top == h || f[j].bot == h);
    }
}

/// What a move does to the segments. The window has those from `left` to `right`; one
/// that was there is unchanged, and one that was loaded has the colliders that were
/// given for it, attached to no body, under two handles that nothing else had.
pub proof fn law_slide_of_a_segment(
    s: Seq<WallSegment>,
    m: Map<(u32, u32), (Seq<u8>, bool)>,
    left: int,
    right: int,
    walls: Seq<(Collider, Collider)>,
    t: Seq<WallSegment>,
    o: Map<(u32, u32), (Seq<u8>, bool)>,
    i: int,
    j: int,
)
    requires
        forall|x: int| 0 <= x < s.len() ==> (#[trigger] s[x]).idx == s[0].idx + x,
        left <= right,
        slid(s, m, left, right, walls, t, o),
    ensures
        t.len() == right - left + 1,
        forall|x: int| 0 <= x < t.len() ==> (#[trigger] t[x]).idx == left + x,
        0 <= i < s.len() && left <= s[i].idx && s[i].idx <= right ==> t[s[i].idx - left] == s[i],
        0 <= j < missing(s, left, right).len() ==> ({
            let g = t[missing(s, left, right)[j] - left];
            &&& g.idx == missing(s, left, right)[j]
            &&& g.top != g.bot
            &&& o.dom().contains(g.top) && o.dom().contains(g.bot)
            &&& o[g.top] == (collider_data(walls[j].0), false)
            &&& o[g.bot] == (collider_data(walls[j].1), false)
            &&& forall|h: (u32, u32)|
                (h == g.top || h == g.bot) && #[trigger] m.dom().contains(h) ==> exists|l: int|
                    0 <= l < s.len() && ((#[trigger] s[l]).idx < left || right < s[l].idx) && (s[l].top == h
                        || s[l].bot == h)
        }),
{
    assert(contiguous(s));
    law_window_covers(s, m, left, right, walls, t, o);
    lemma_cuts(s, left, right);
    let k = kept(s, left, right);
    let n = lacking_left(k, left);
    let f = loaded(t, k, n);
    let gone = evicted(s, left, right);
    let rest = remaining(s, m, left, right);
    let a = cut_left(s, left);
    let b = cut_right(s, left, right);
    if 0 <= i < s.len() && left <= s[i].idx && s[i].idx <= right {
        assert(a <= i < b);
        assert(k[i - a] == s[i]);
        assert(t[n + i - a] == k[i - a]);
        assert(t[n + i - a].idx == left + (n + i - a));
    }
    if 0 <= j < missing(s, left, right).len() {
        let x = if j < n {
            n - 1 - j
        } else {
            j + k.len()
        };
        let g = f[j];
        assert(t[x] == g);
        assert(g.idx == missing(s, left, right)[j]);
        assert(t[x].idx == left + x);
        law_walls_join_the_colliders(rest, f, walls, g.top, j);
        assert forall|h: (u32, u32)| (h == g.top || h == g.bot) && #[trigger] m.dom().contains(h) implies exists|
            l: int,
        |
            0 <= l < s.len() && ((#[trigger] s[l]).idx < left || right < s[l].idx) && (s[l].top == h
                || s[l].bot == h) by {
            assert(!rest.dom().contains(h));
            assert(handles(gone).contains(h));
            let y = choose|y: int| 0 <= y < gone.len() && #[trigger] holds(gone[y], h);
            let l = if y < a {
                y
            } else {
                y - a + b
            };
            assert(gone[y] == s[l]);
            assert(s[l].idx < left || right < s[l].idx);
        }
    }
}

/// What a move does to one collider. One that belongs to no segment outside the range
/// stays as it is; and one that is there afterwards was there before, and belongs to no
/// segment that has left, or belongs to a segment that was loaded.
pub proof fn law_slide_of_a_collider(
    s: Seq<WallSegment>,
    m: Map<(u32, u32), (Seq<u8>, bool)>,
    left: int,
    right: int,
    walls: Seq<(Collider, Collider)>,
    t: Seq<WallSegment>,
    o: Map<(u32, u32), (Seq<u8>, bool)>,
    h: (u32, u32),
)
    requires
        forall|x: int| 0 <= x < s.len() ==> (#[trigger] s[x]).idx == s[0].idx + x,
        left <= right,
        slid(s, m, left, right, walls, t, o),
    ensures
        m.dom().contains(h) && (forall|i: int|
            0 <= i < s.len() && ((#[trigger] s[i]).idx < left || right < s[i].idx) ==> s[i].top != h && s[i].bot
                != h) ==> o.dom().contains(h) && o[h] == m[h],
        o.dom().contains(h) ==> (m.dom().contains(h) && (forall|i: int|
            0 <= i < s.len() && ((#[trigger] s[i]).idx < left || right < s[i].idx) ==> s[i].top != h && s[i].bot
                != h)) || (exists|j: int|
            0 <= j < missing(s, left, right).len() && (t[#[trigger] missing(s, left, right)[j] - left].top == h
                || t[missing(s, left, right)[j] - left].bot == h)),
{
    assert(contiguous(s));
    lemma_cuts(s, left, right);
    law_segments_stay_or_leave(s, left, right);
    let k = kept(s, left, right);
    let n = lacking_left(k, left);
    let f = loaded(t, k, n);
    let gone = evicted(s, left, right);
    let rest = remaining(s, m, left, right);
    law_walls_join_the_colliders(rest, f, walls, h, 0);
    if handles(gone).contains(h) {
        let y = choose|y: int| 0 <= y < gone.len() && #[trigger] holds(gone[y], h);
        assert(gone.contains(gone[y]));
        let l = choose|l: int| 0 <= l < s.len() && s[l] == gone[y];
        assert(s[l].top == h || s[l].bot == h);
    } else {
        assert forall|i: int| 0 <= i < s.len() && ((#[trigger] s[i]).idx < left || right < s[i].idx) implies s[i].top
            != h && s[i].bot != h by {
            assert(s.contains(s[i]));
            assert(gone.contains(s[i]));
            let y = choose|y: int| 0 <= y < gone.len() && gone[y] == s[i];
            assert(!holds(gone[y], h));
        }
    }
    if o.dom().contains(h) && !rest.dom().contains(h) {
        let j = choose|j: int| 0 <= j < f.len() && ((#[trigger] f[j]).top == h || f[j].bot == h);
        law_window_covers(s, m, left, right, walls, t, o);
        let x = if j < n {
            n - 1 - j
        } else {
            j + k.len()
        };
        assert(t[x] == f[j]);
        assert(f[j].idx == missing(s, left, right)[j]);
        assert(t[x].idx == left + x);
        assert(t[missing(s, left, right)[j] - left] == f[j]);
    }
}

/// Bodies are left alone where no collider of the segments that leave is attached to
/// one; segments are backed where each has two colliders of its own that are attached
/// to no body; and they show the world where those have the data of their places.
pub proof fn law_backing_of_walls(
    s: Seq<WallSegment>,
    m: Map<(u32, u32), (Seq<u8>, bool)>,
    world: spec_fn(int) -> (Seq<u8>, Seq<u8>),
)
    ensures
        (forall|i: int|
            0 <= i < s.len() ==> (m.dom().contains((#[trigger] s[i]).top) ==> !m[s[i].top].1) && (
            m.dom().contains(s[i].bot) ==> !m[s[i].bot].1)) <==> unattached(s, m),
        backed(s, m) ==> (forall|i: int|
            0 <= i < s.len() ==> (#[trigger] s[i]).top != s[i].bot && m.dom().contains(s[i].top)
                && m.dom().contains(s[i].bot) && !m[s[i].top].1 && !m[s[i].bot].1),
        backed(s, m) ==> (forall|i: int, j: int|
            0 <= i < s.len() && 0 <= j < s.len() && i != j ==> (#[trigger] s[i]).top != (#[trigger] s[j]).top
                && s[i].top != s[j].bot && s[i].bot != s[j].bot),
        shows(s, m, world) <==> backed(s, m) && (forall|i: int|
            0 <= i < s.len() ==> m[(#[trigger] s[i]).top].0 == world(s[i].idx as int).0 && m[s[i].bot].0 == world(
                s[i].idx as int,
            ).1),
{
    if backed(s, m) {
        assert forall|i: int, j: int| 0 <= i < s.len() && 0 <= j < s.len() && i != j implies (
        #[trigger] s[i]).top != (#[trigger] s[j]).top && s[i].top != s[j].bot && s[i].bot != s[j].bot by {
            assert(!holds(s[i], s[j].top) && !holds(s[i], s[j].bot));
        }
    }
}

} // verus!
