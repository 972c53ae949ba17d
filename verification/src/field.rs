//! The obstacles around the ship, loaded and unloaded by slot.

use rapier2d::dynamics::{IslandManager, RigidBodySet};
use rapier2d::geometry::Collider;
use std::collections::{HashMap, VecDeque};
use vstd::prelude::*;

use crate::colliders::{collider_data, collider_limit, ColliderStore};

verus! {

broadcast use vstd::std_specs::hash::group_hash_axioms;

/// A loaded obstacle: the handle of its collider, and, as words, where it stands,
/// how it is turned, and the vertices of its hull before that.
pub struct Obstacle {
    pub handle: (u32, u32),
    pub cx: u32,
    pub cy: u32,
    pub rot: u32,
    pub verts: Vec<(u32, u32)>,
}

/// An obstacle to load: its collider, and the words of its geometry.
pub struct Hull {
    pub collider: Collider,
    pub cx: u32,
    pub cy: u32,
    pub rot: u32,
    pub verts: Vec<(u32, u32)>,
}

/// The loaded obstacles, by slot.
pub struct ObstacleField {
    pub slots: HashMap<i64, Obstacle>,
}

/// Whether slot `k` lies between `left` and `right`, both included.
pub open spec fn in_range(k: i64, left: i64, right: i64) -> bool {
    left <= k <= right
}

/// The obstacles that stay when the window moves to `left..=right`.
pub open spec fn staying(m: Map<i64, Obstacle>, left: i64, right: i64) -> Map<i64, Obstacle> {
    m.restrict(Set::new(|k: i64| in_range(k, left, right)))
}

/// The slots of the obstacles that go when the window moves to `left..=right`.
pub open spec fn leaving(m: Map<i64, Obstacle>, left: i64, right: i64) -> Set<i64> {
    m.dom().filter(|k: i64| !in_range(k, left, right))
}

/// The handles of the obstacles at the slots `ks`.
pub open spec fn handles_at(m: Map<i64, Obstacle>, ks: Set<i64>) -> Set<(u32, u32)> {
    Set::new(|h: (u32, u32)| exists|k: i64| #[trigger] ks.contains(k) && m[k].handle == h)
}

/// The slots from `left` to `right`, in order.
pub open spec fn slots_between(left: i64, right: i64) -> Seq<i64> {
    if left <= right {
        Seq::new((right - left + 1) as nat, |i: int| (left + i) as i64)
    } else {
        Seq::empty()
    }
}

/// The slots from `left` to `right` that have no obstacle loaded, in order.
pub open spec fn vacant(m: Map<i64, Obstacle>, left: i64, right: i64) -> Seq<i64> {
    slots_between(left, right).filter(|k: i64| !m.dom().contains(k))
}

/// Whether `o` is the obstacle that comes of loading `h`.
pub open spec fn comes_of(o: Obstacle, h: Hull) -> bool {
    o.cx == h.cx && o.cy == h.cy && o.rot == h.rot && o.verts@ == h.verts@
}

/// The colliders `m`, after those of the hulls at the first `n` of the slots `ks`
/// have joined them, under the handles that `f` gives.
pub open spec fn with_hulls(
    m: Map<(u32, u32), (Seq<u8>, bool)>,
    ks: Seq<i64>,
    hulls: Seq<Option<Hull>>,
    f: Map<i64, Obstacle>,
    n: int,
) -> Map<(u32, u32), (Seq<u8>, bool)>
    decreases n,
{
    if n <= 0 {
        m
    } else {
        let w = with_hulls(m, ks, hulls, f, n - 1);
        match hulls[n - 1] {
            Some(h) => w.insert(f[ks[n - 1]].handle, (collider_data(h.collider), false)),
            None => w,
        }
    }
}

/// Whether the field `f` comes of the obstacles `kept` by loading the hulls at the
/// first `n` of the slots `ks`, under handles of their own that are new to `m`.
pub open spec fn loaded(
    kept: Map<i64, Obstacle>,
    m: Map<(u32, u32), (Seq<u8>, bool)>,
    ks: Seq<i64>,
    hulls: Seq<Option<Hull>>,
    f: Map<i64, Obstacle>,
    n: int,
) -> bool {
    &&& forall|k: i64|
        f.dom().contains(k) <==> kept.dom().contains(k) || exists|j: int|
            0 <= j < n && #[trigger] ks[j] == k && hulls[j] is Some
    &&& forall|k: i64| kept.dom().contains(k) ==> #[trigger] f[k] == kept[k]
    &&& forall|j: int|
        #![trigger ks[j]]
        0 <= j < n && hulls[j] is Some ==> comes_of(f[ks[j]], hulls[j]->0) && !m.dom().contains(
            f[ks[j]].handle,
        )
    &&& forall|i: int, j: int|
        #![trigger ks[i], ks[j]]
        0 <= i < j < n && hulls[i] is Some && hulls[j] is Some ==> f[ks[i]].handle != f[ks[j]].handle
}

/// The colliders that are left of `m` when the obstacles outside `left..=right` have
/// gone.
pub open spec fn remaining(
    s: Map<i64, Obstacle>,
    m: Map<(u32, u32), (Seq<u8>, bool)>,
    left: i64,
    right: i64,
) -> Map<(u32, u32), (Seq<u8>, bool)> {
    m.remove_keys(handles_at(s, leaving(s, left, right)))
}

/// How many of the first `n` slots have a hull to load.
pub open spec fn hulls_among(hulls: Seq<Option<Hull>>, n: int) -> nat
    decreases n,
{
    if n <= 0 {
        0
    } else {
        hulls_among(hulls, n - 1) + (if hulls[n - 1] is Some {
            1nat
        } else {
            0nat
        })
    }
}

/// How a field `s` among the colliders `m` moves to the slots `left..=right`: the
/// obstacles outside leave with their colliders, and the hulls are loaded at the
/// vacant slots, which gives the field `t` among the colliders `o`.
pub open spec fn moved(
    s: Map<i64, Obstacle>,
    m: Map<(u32, u32), (Seq<u8>, bool)>,
    left: i64,
    right: i64,
    hulls: Seq<Option<Hull>>,
    t: Map<i64, Obstacle>,
    o: Map<(u32, u32), (Seq<u8>, bool)>,
) -> bool {
    let ks = vacant(s, left, right);
    let rest = remaining(s, m, left, right);
    &&& loaded(staying(s, left, right), rest, ks, hulls, t, ks.len() as int)
    &&& o == with_hulls(rest, ks, hulls, t, ks.len() as int)
}

/// Whether none of the obstacles at the slots `ks` is attached to a body.
pub open spec fn unattached(
    s: Map<i64, Obstacle>,
    ks: Set<i64>,
    m: Map<(u32, u32), (Seq<u8>, bool)>,
) -> bool {
    forall|k: i64| #[trigger]
        ks.contains(k) && m.dom().contains(s[k].handle) ==> !m[s[k].handle].1
}

/// A filter keeps the elements that pass, once each.
proof fn lemma_filter_set(s: Seq<i64>, p: spec_fn(i64) -> bool)
    requires
        s.no_duplicates(),
    ensures
        s.filter(p).to_set() == s.to_set().filter(p),
        s.filter(p).no_duplicates(),
    decreases s.len(),
{
    broadcast use vstd::seq_lib::group_filter_ensures;

    reveal(Seq::filter);
    if s.len() > 0 {
        let t = s.drop_last();
        lemma_filter_set(t, p);
        assert forall|k: i64| #[trigger] t.filter(p).contains(k) implies t.contains(k) by {
            assert(t.filter(p).to_set().contains(k));
        }
        assert(!t.contains(s.last()));
        if p(s.last()) {
            assert(!t.filter(p).contains(s.last()));
            assert(s.filter(p) == t.filter(p).push(s.last()));
            let u = s.filter(p);
            assert forall|i: int, j: int| 0 <= i < j < u.len() implies u[i] != u[j] by {
                assert(t.filter(p)[i] == u[i]);
                assert(t.filter(p).contains(u[i]));
            }
        } else {
            assert(s.filter(p) == t.filter(p));
        }
    }
    assert forall|k: i64| #[trigger] s.filter(p).to_set().contains(k) <==> s.to_set().filter(p).contains(k) by {
        if s.contains(k) && p(k) {
            let i = choose|i: int| 0 <= i < s.len() && s[i] == k;
            assert(s.filter(p).contains(s[i]));
        }
        if s.filter(p).contains(k) {
            if s.len() > 0 {
                let t = s.drop_last();
                if t.filter(p).contains(k) {
                    assert(t.filter(p).to_set().contains(k));
                    assert(t.contains(k));
                    let i = choose|i: int| 0 <= i < t.len() && t[i] == k;
                    assert(s[i] == k);
                } else {
                    assert(k == s.last());
                }
            }
        }
    }
    assert(s.filter(p).to_set() =~= s.to_set().filter(p));
}

proof fn lemma_handles_insert(m: Map<i64, Obstacle>, ks: Set<i64>, k: i64)
    ensures
        handles_at(m, ks.insert(k)) == handles_at(m, ks).insert(m[k].handle),
{
    assert forall|h: (u32, u32)| #[trigger]
        handles_at(m, ks.insert(k)).contains(h) <==> handles_at(m, ks).insert(m[k].handle).contains(h) by {
        if handles_at(m, ks).contains(h) {
            let j = choose|j: i64| #[trigger] ks.contains(j) && m[j].handle == h;
            assert(ks.insert(k).contains(j));
        }
        if h == m[k].handle {
            assert(ks.insert(k).contains(k));
        }
        if handles_at(m, ks.insert(k)).contains(h) {
            let j = choose|j: i64| #[trigger] ks.insert(k).contains(j) && m[j].handle == h;
            if j != k {
                assert(ks.contains(j));
            }
        }
    }
    assert(handles_at(m, ks.insert(k)) =~= handles_at(m, ks).insert(m[k].handle));
}

/// The vacant slots are those of the range without an obstacle, once each.
proof fn lemma_vacant(m: Map<i64, Obstacle>, left: i64, right: i64)
    ensures
        vacant(m, left, right).no_duplicates(),
        forall|k: i64| #[trigger]
            vacant(m, left, right).contains(k) <==> in_range(k, left, right) && !m.dom().contains(k),
        forall|j: int|
            0 <= j < vacant(m, left, right).len() ==> !m.dom().contains(
                #[trigger] vacant(m, left, right)[j],
            ),
{
    let all = slots_between(left, right);
    let p = |k: i64| !m.dom().contains(k);
    let ks = vacant(m, left, right);
    assert(all.no_duplicates());
    lemma_filter_set(all, p);
    assert forall|k: i64| #[trigger] ks.contains(k) <==> in_range(k, left, right) && !m.dom().contains(k) by {
        assert(ks.contains(k) <==> ks.to_set().contains(k));
        assert(ks.to_set().contains(k) <==> all.to_set().contains(k) && p(k));
        if in_range(k, left, right) {
            assert(all[k - left] == k);
        }
    }
    assert forall|j: int| 0 <= j < ks.len() implies !m.dom().contains(#[trigger] ks[j]) by {
        assert(ks.contains(ks[j]));
    }
}

/// The colliders do not depend on the obstacles at other slots.
proof fn lemma_with_hulls_frame(
    m: Map<(u32, u32), (Seq<u8>, bool)>,
    ks: Seq<i64>,
    hulls: Seq<Option<Hull>>,
    f: Map<i64, Obstacle>,
    g: Map<i64, Obstacle>,
    n: int,
)
    requires
        0 <= n <= ks.len(),
        forall|j: int| 0 <= j < n && hulls[j] is Some ==> f[#[trigger] ks[j]] == g[ks[j]],
    ensures
        with_hulls(m, ks, hulls, f, n) == with_hulls(m, ks, hulls, g, n),
    decreases n,
{
    if n > 0 {
        lemma_with_hulls_frame(m, ks, hulls, f, g, n - 1);
    }
}

/// The colliders that the hulls join, and those of the hulls, are all that there is.
proof fn lemma_with_hulls_dom(
    m: Map<(u32, u32), (Seq<u8>, bool)>,
    ks: Seq<i64>,
    hulls: Seq<Option<Hull>>,
    f: Map<i64, Obstacle>,
    n: int,
    h: (u32, u32),
)
    requires
        0 <= n <= ks.len(),
    ensures
        with_hulls(m, ks, hulls, f, n).dom().contains(h) <==> m.dom().contains(h) || exists|j: int|
            0 <= j < n && hulls[j] is Some && f[#[trigger] ks[j]].handle == h,
    decreases n,
{
    if n > 0 {
        lemma_with_hulls_dom(m, ks, hulls, f, n - 1, h);
        if hulls[n - 1] is Some && f[ks[n - 1]].handle == h {
            assert(with_hulls(m, ks, hulls, f, n).dom().contains(h));
        }
    }
}

/// One more slot is dealt with.
proof fn lemma_loaded_step(
    kept: Map<i64, Obstacle>,
    m: Map<(u32, u32), (Seq<u8>, bool)>,
    ks: Seq<i64>,
    hulls: Seq<Option<Hull>>,
    f: Map<i64, Obstacle>,
    g: Map<i64, Obstacle>,
    n: int,
)
    requires
        0 <= n < ks.len(),
        ks.no_duplicates(),
        forall|j: int| 0 <= j < ks.len() ==> !kept.dom().contains(#[trigger] ks[j]),
        loaded(kept, m, ks, hulls, f, n),
        hulls[n] is None ==> g == f,
        hulls[n] matches Some(h) ==> {
            &&& g == f.insert(ks[n], g[ks[n]])
            &&& comes_of(g[ks[n]], h)
            &&& !with_hulls(m, ks, hulls, f, n).dom().contains(g[ks[n]].handle)
        },
    ensures
        loaded(kept, m, ks, hulls, g, n + 1),
        with_hulls(m, ks, hulls, g, n + 1) == (match hulls[n] {
            Some(h) => with_hulls(m, ks, hulls, f, n).insert(
                g[ks[n]].handle,
                (collider_data(h.collider), false),
            ),
            None => with_hulls(m, ks, hulls, f, n),
        }),
{
    let k = ks[n];
    assert forall|j: int| 0 <= j < n implies f[#[trigger] ks[j]] == g[ks[j]] by {
        assert(ks[j] != k);
    }
    lemma_with_hulls_frame(m, ks, hulls, f, g, n);
    if hulls[n] is Some {
        lemma_with_hulls_dom(m, ks, hulls, f, n, g[k].handle);
    }
    assert forall|x: i64| g.dom().contains(x) <==> kept.dom().contains(x) || exists|j: int|
        0 <= j < n + 1 && #[trigger] ks[j] == x && hulls[j] is Some by {
        if f.dom().contains(x) && !kept.dom().contains(x) {
            let j = choose|j: int| 0 <= j < n && #[trigger] ks[j] == x && hulls[j] is Some;
            assert(0 <= j < n + 1);
        }
        if hulls[n] is Some && x == k {
            assert(ks[n] == x);
        }
    }
}

impl View for ObstacleField {
    type V = Map<i64, Obstacle>;

    /// The loaded obstacles.
    open spec fn view(&self) -> Map<i64, Obstacle> {
        self.slots@
    }
}

/// While the obstacles at the slots `part` have left, the collider of another one that
/// leaves is more than those that are left when all have gone.
proof fn lemma_room_to_remove(
    s: Map<i64, Obstacle>,
    m: Map<(u32, u32), (Seq<u8>, bool)>,
    gone: Set<i64>,
    part: Set<i64>,
    k: i64,
)
    requires
        m.dom().finite(),
        part.subset_of(gone),
        gone.contains(k),
    ensures
        ({
            let rest = m.remove_keys(handles_at(s, gone)).dom();
            let x = m.remove_keys(handles_at(s, part)).dom();
            x.contains(s[k].handle) ==> rest.len() < x.len()
        }),
{
    let rest = m.remove_keys(handles_at(s, gone)).dom();
    let x = m.remove_keys(handles_at(s, part)).dom();
    assert forall|h: (u32, u32)| handles_at(s, part).contains(h) implies handles_at(s, gone).contains(h) by {
        let j = choose|j: i64| #[trigger] part.contains(j) && s[j].handle == h;
        assert(gone.contains(j));
    }
    assert(handles_at(s, gone).contains(s[k].handle));
    vstd::set_lib::lemma_set_subset_finite(m.dom(), x);
    if x.contains(s[k].handle) {
        vstd::set_lib::lemma_len_subset(rest, x.remove(s[k].handle));
    }
}

/// Each obstacle that goes takes at most one collider along.
proof fn lemma_colliders_gone(
    s: Map<i64, Obstacle>,
    m: Map<(u32, u32), (Seq<u8>, bool)>,
    gone: Set<i64>,
)
    requires
        m.dom().finite(),
        gone.finite(),
    ensures
        m.remove_keys(handles_at(s, gone)).dom().finite(),
        m.dom().len() <= m.remove_keys(handles_at(s, gone)).dom().len() + gone.len(),
    decreases gone.len(),
{
    let x = m.remove_keys(handles_at(s, gone)).dom();
    if gone.len() == 0 {
        assert(gone =~= Set::empty());
        assert forall|h: (u32, u32)| !(#[trigger] handles_at(s, gone).contains(h)) by {}
        assert(x =~= m.dom());
    } else {
        let k = gone.choose();
        let e = gone.remove(k);
        lemma_colliders_gone(s, m, e);
        assert(gone =~= e.insert(k));
        lemma_handles_insert(s, e, k);
        assert(x =~= m.remove_keys(handles_at(s, e)).dom().remove(s[k].handle));
    }
}

/// More slots have no fewer hulls.
proof fn lemma_hulls_among(hulls: Seq<Option<Hull>>, i: int, n: int)
    requires
        i <= n,
    ensures
        hulls_among(hulls, i) <= hulls_among(hulls, n),
    decreases n - i,
{
    if i < n {
        lemma_hulls_among(hulls, i, n - 1);
    }
}

/// How many slots have a hull to load.
fn count_hulls(hulls: &VecDeque<Option<Hull>>) -> (r: usize)
    ensures
        r == hulls_among(hulls@, hulls@.len() as int),
{
    let mut r: usize = 0;
    let mut i: usize = 0;
    while i < hulls.len()
        invariant
            i <= hulls@.len(),
            r <= i,
            r == hulls_among(hulls@, i as int),
        decreases hulls@.len() - i,
    {
        if hulls[i].is_some() {
            r = r + 1;
        }
        i = i + 1;
    }
    r
}

impl ObstacleField {
    /// A field without obstacles.
    pub fn new() -> (r: Self)
        ensures
            r@ == Map::<i64, Obstacle>::empty(),
    {
        ObstacleField { slots: HashMap::new() }
    }

    /// The slots from `left` to `right` that have no obstacle loaded, in order.
    pub fn vacant(&self, left: i64, right: i64) -> (r: Vec<i64>)
        ensures
            r@ == vacant(self@, left, right),
            forall|k: i64| #[trigger]
                r@.contains(k) <==> left <= k && k <= right && !self@.dom().contains(k),
            forall|i: int, j: int| 0 <= i < j < r@.len() ==> r@[i] < r@[j],
    {
        let mut r: Vec<i64> = Vec::new();
        let ghost p = |k: i64| !self@.dom().contains(k);
        let ghost all = slots_between(left, right);
        let mut k: i64 = left;
        let mut more: bool = left <= right;
        assert(all.take(0).filter(p) == Seq::<i64>::empty()) by {
            reveal(Seq::filter);
        }
        while more
            invariant
                more ==> left <= k <= right,
                all == slots_between(left, right),
                p == (|k: i64| !self@.dom().contains(k)),
                r@ == all.take(if more { k - left } else { all.len() as int }).filter(p),
            decreases right - k + (if more { 1int } else { 0int }),
        {
            let ghost i = k - left;
            if !self.slots.contains_key(&k) {
                r.push(k);
            }
            proof {
                reveal(Seq::filter);
                assert(all.take(i + 1).drop_last() == all.take(i));
                assert(all.take(i + 1).last() == k);
            }
            if k < right {
                k = k + 1;
            } else {
                more = false;
            }
        }
        assert(all.take(all.len() as int) == all);
        proof {
            law_vacant_slots_have_no_obstacle(self@, left, right);
        }
        r
    }

    /// Loads the obstacle of slot `k`, if it has one.
    pub fn spawn_obstacle(&mut self, k: i64, hull: Option<Hull>, store: &mut ColliderStore)
        requires
            old(store).wf(),
            hull is Some ==> old(store).has_room_for(1, 0),
        ensures
            final(store).wf(),
            final(store).removals == old(store).removals,
            hull is None ==> final(self)@ == old(self)@ && *final(store) == *old(store),
            hull matches Some(h) ==> {
                &&& final(self)@ == old(self)@.insert(k, final(self)@[k])
                &&& comes_of(final(self)@[k], h)
                &&& final(self)@[k].cx == h.cx
                &&& final(self)@[k].cy == h.cy
                &&& final(self)@[k].rot == h.rot
                &&& final(self)@[k].verts@ == h.verts@
                &&& !old(store)@.dom().contains(final(self)@[k].handle)
                &&& final(store)@ == old(store)@.insert(
                    final(self)@[k].handle,
                    (collider_data(h.collider), false),
                )
                &&& final(store)@.dom().len() == old(store)@.dom().len() + 1
            },
    {
        if let Some(h) = hull {
            let handle = store.insert(h.collider);
            let o = Obstacle { handle, cx: h.cx, cy: h.cy, rot: h.rot, verts: h.verts };
            self.slots.insert(k, o);
        }
    }

    /// The slots of the loaded obstacles that do not lie between `left` and `right`,
    /// in no particular order.
    pub fn leaving(&self, left: i64, right: i64) -> (r: Vec<i64>)
        ensures
            r@.to_set() == leaving(self@, left, right),
            forall|k: i64| #[trigger]
                r@.contains(k) <==> self@.dom().contains(k) && (k < left || right < k),
            r@.no_duplicates(),
            r@.len() == leaving(self@, left, right).len(),
    {
        let mut r: Vec<i64> = Vec::new();
        let ghost q = |k: i64| !in_range(k, left, right);
        let ghost mut all: Seq<i64> = Seq::empty();
        assert(Seq::<i64>::empty().filter(q) == Seq::<i64>::empty()) by {
            reveal(Seq::filter);
        }
        for key in it: self.slots.keys()
            invariant
                it.seq().unref().to_set() == self@.dom(),
                it.seq().no_duplicates(),
                q == (|k: i64| !in_range(k, left, right)),
                all == it.seq().unref().take(it.index() as int),
                it.index() == it.seq().len() ==> all == it.seq().unref(),
                r@ == all.filter(q),
        {
            let k: i64 = *key;
            if k < left || k > right {
                r.push(k);
            }
            proof {
                reveal(Seq::filter);
                assert(all.push(k).drop_last() == all);
                all = all.push(k);
                assert(all == it.seq().unref().take(it.index() + 1));
            }
        }
        proof {
            assert(all.to_set() == self@.dom());
            assert(all.no_duplicates());
            lemma_filter_set(all, q);
            assert(leaving(self@, left, right) == all.to_set().filter(q));
            r@.unique_seq_to_set();
            assert forall|k: i64| #[trigger]
                r@.contains(k) <==> self@.dom().contains(k) && (k < left || right < k) by {
                assert(r@.contains(k) <==> r@.to_set().contains(k));
            }
        }
        r
    }

    /// Drops the obstacles whose slots do not lie between `left` and `right`, with
    /// their colliders.
    fn evict(
        &mut self,
        left: i64,
        right: i64,
        store: &mut ColliderStore,
        islands: &mut IslandManager,
        bodies: &mut RigidBodySet,
    )
        requires
            old(store).wf(),
            old(store).removals + old(store)@.dom().len() <= u32::MAX + remaining(
                old(self)@,
                old(store)@,
                left,
                right,
            ).dom().len(),
        ensures
            final(self)@ == staying(old(self)@, left, right),
            final(store).wf(),
            final(store)@ == remaining(old(self)@, old(store)@, left, right),
            final(store).removals + final(store)@.dom().len() == old(store).removals
                + old(store)@.dom().len(),
            unattached(old(self)@, leaving(old(self)@, left, right), old(store)@) ==> *final(bodies)
                == *old(bodies),
            *final(islands) == *old(islands),
    {
        let ghost s = self@;
        let ghost m = store@;
        let gone: Vec<i64> = self.leaving(left, right);
        let ghost out = leaving(s, left, right);
        let mut i: usize = 0;
        assert(m =~= m.remove_keys(handles_at(s, gone@.take(0).to_set())));
        assert(s =~= s.remove_keys(gone@.take(0).to_set()));
        while i < gone.len()
            invariant
                i <= gone@.len(),
                s == old(self)@,
                m == old(store)@,
                m.dom().finite(),
                out == leaving(s, left, right),
                gone@.to_set() == out,
                gone@.no_duplicates(),
                gone@.len() == out.len(),
                self@ == s.remove_keys(gone@.take(i as int).to_set()),
                store.wf(),
                store@ == m.remove_keys(handles_at(s, gone@.take(i as int).to_set())),
                old(store).removals + m.dom().len() <= u32::MAX + m.remove_keys(handles_at(s, out)).dom().len(),
                store.removals + store@.dom().len() == old(store).removals + m.dom().len(),
                unattached(s, out, m) ==> *bodies == *old(bodies),
                *islands == *old(islands),
            decreases gone@.len() - i,
        {
            let k: i64 = gone[i];
            let ghost before = gone@.take(i as int).to_set();
            let ghost after = gone@.take(i + 1).to_set();
            proof {
                assert(gone@.to_set().contains(k));
                assert(!before.contains(k));
                assert(gone@.take(i + 1) == gone@.take(i as int).push(k));
                assert(after =~= before.insert(k)) by {
                    assert forall|x: i64| after.contains(x) <==> before.insert(k).contains(x) by {
                        if before.contains(x) {
                            let j = choose|j: int| 0 <= j < i && gone@.take(i as int)[j] == x;
                            assert(gone@.take(i + 1)[j] == x);
                        }
                        if x == k {
                            assert(gone@.take(i + 1)[i as int] == x);
                        }
                    }
                }
                lemma_handles_insert(s, before, k);
            }
            if let Some(o) = self.slots.remove(&k) {
                assert(o == s[k]);
                proof {
                    assert forall|x: i64| before.contains(x) implies out.contains(x) by {
                        let j = choose|j: int| 0 <= j < i && gone@.take(i as int)[j] == x;
                        assert(gone@[j] == x);
                        assert(gone@.to_set().contains(x));
                    }
                    lemma_room_to_remove(s, m, out, before, k);
                }
                store.remove(o.handle, islands, bodies);
            }
            assert(self@ =~= s.remove_keys(after));
            assert(store@ =~= m.remove_keys(handles_at(s, after)));
            i = i + 1;
        }
        assert(gone@.take(i as int) == gone@);
        assert(self@ =~= staying(s, left, right));
    }

    /// Loads the hulls at these slots, which have no obstacle.
    fn load(&mut self, slots: &Vec<i64>, hulls: VecDeque<Option<Hull>>, store: &mut ColliderStore)
        requires
            slots@.no_duplicates(),
            forall|j: int| 0 <= j < slots@.len() ==> !old(self)@.dom().contains(#[trigger] slots@[j]),
            hulls@.len() == slots@.len(),
            old(store).wf(),
            old(store).has_room_for(hulls_among(hulls@, hulls@.len() as int) as int, 0),
        ensures
            loaded(old(self)@, old(store)@, slots@, hulls@, final(self)@, slots@.len() as int),
            final(store)@ == with_hulls(
                old(store)@,
                slots@,
                hulls@,
                final(self)@,
                slots@.len() as int,
            ),
            final(store).wf(),
            final(store)@.dom().len() == old(store)@.dom().len() + hulls_among(
                hulls@,
                hulls@.len() as int,
            ),
            final(store).removals == old(store).removals,
    {
        let ghost c = hulls@;
        let ghost kept = self@;
        let ghost rest = store@;
        let mut hulls = hulls;
        let mut i: usize = 0;
        while i < slots.len()
            invariant
                i <= slots@.len(),
                slots@.no_duplicates(),
                forall|j: int| 0 <= j < slots@.len() ==> !kept.dom().contains(#[trigger] slots@[j]),
                c.len() == slots@.len(),
                hulls@ == c.skip(i as int),
                loaded(kept, rest, slots@, c, self@, i as int),
                store@ == with_hulls(rest, slots@, c, self@, i as int),
                store.wf(),
                store.removals == old(store).removals,
                store@.dom().len() == rest.dom().len() + hulls_among(c, i as int),
                rest.dom().len() + hulls_among(c, c.len() as int) <= collider_limit(),
            decreases slots@.len() - i,
        {
            let ghost f = self@;
            let k: i64 = slots[i];
            proof {
                lemma_hulls_among(c, i + 1, c.len() as int);
            }
            if let Some(hull) = hulls.pop_front() {
                assert(hull == c[i as int]);
                self.spawn_obstacle(k, hull, store);
                proof {
                    lemma_loaded_step(kept, rest, slots@, c, f, self@, i as int);
                }
            }
            i = i + 1;
            assert(hulls@ == c.skip(i as int));
        }
    }

    /// Moves the field to the slots from `left` to `right`. What stands at the vacant
    /// slots comes in `hulls`, in the order that `vacant` gives.
    pub fn slide(
        &mut self,
        left: i64,
        right: i64,
        hulls: VecDeque<Option<Hull>>,
        store: &mut ColliderStore,
        islands: &mut IslandManager,
        bodies: &mut RigidBodySet,
    )
        requires
            hulls@.len() == vacant(old(self)@, left, right).len(),
            old(store).wf(),
            remaining(old(self)@, old(store)@, left, right).dom().len() + hulls_among(
                hulls@,
                hulls@.len() as int,
            ) <= collider_limit(),
            old(store).removals + old(store)@.dom().len() <= u32::MAX + remaining(
                old(self)@,
                old(store)@,
                left,
                right,
            ).dom().len(),
        ensures
            moved(old(self)@, old(store)@, left, right, hulls@, final(self)@, final(store)@),
            final(store).wf(),
            final(store)@.dom().len() == remaining(old(self)@, old(store)@, left, right).dom().len()
                + hulls_among(hulls@, hulls@.len() as int),
            final(store).removals + remaining(old(self)@, old(store)@, left, right).dom().len()
                == old(store).removals + old(store)@.dom().len(),
            unattached(old(self)@, leaving(old(self)@, left, right), old(store)@) ==> *final(bodies)
                == *old(bodies),
            *final(islands) == *old(islands),
    {
        let ghost s = self@;
        let slots: Vec<i64> = self.vacant(left, right);
        self.evict(left, right, store, islands, bodies);
        proof {
            lemma_vacant(s, left, right);
        }
        self.load(&slots, hulls, store);
    }

    /// Moves the field as `slide` does and says that it did. If the store can take no
    /// more removals, changes nothing instead; if it has no room for the hulls even
    /// after the others have gone, they go and nothing is loaded.
    pub fn try_slide(
        &mut self,
        left: i64,
        right: i64,
        hulls: VecDeque<Option<Hull>>,
        store: &mut ColliderStore,
        islands: &mut IslandManager,
        bodies: &mut RigidBodySet,
    ) -> (r: bool)
        requires
            hulls@.len() == vacant(old(self)@, left, right).len(),
            old(store).wf(),
        ensures
            ({
                let gone = leaving(old(self)@, left, right);
                let rest = remaining(old(self)@, old(store)@, left, right);
                let removable = old(store).removals + gone.len() <= u32::MAX;
                &&& r == (removable && rest.dom().len() + hulls_among(hulls@, hulls@.len() as int)
                    <= collider_limit())
                &&& r ==> moved(
                    old(self)@,
                    old(store)@,
                    left,
                    right,
                    hulls@,
                    final(self)@,
                    final(store)@,
                )
                &&& !removable ==> *final(self) == *old(self) && *final(store) == *old(store)
                &&& !r && removable ==> final(self)@ == staying(old(self)@, left, right)
                    && final(store)@ == rest
                &&& removable ==> final(store).removals + rest.dom().len() == old(store).removals
                    + old(store)@.dom().len()
                &&& (!removable || unattached(old(self)@, gone, old(store)@)) ==> *final(bodies)
                    == *old(bodies)
            }),
            final(store).wf(),
            *final(islands) == *old(islands),
    {
        let ghost s = self@;
        let slots: Vec<i64> = self.vacant(left, right);
        let m: usize = self.leaving(left, right).len();
        if m as u64 > (u32::MAX - store.removals) as u64 {
            return false;
        }
        proof {
            lemma_colliders_gone(s, store@, leaving(s, left, right));
            lemma_vacant(s, left, right);
        }
        self.evict(left, right, store, islands, bodies);
        if !store.has_room(count_hulls(&hulls), 0) {
            return false;
        }
        self.load(&slots, hulls, store);
        true
    }
}

/// Whether the colliders of the obstacles are all among `m`, each under a handle of
/// its own and attached to no body.
pub open spec fn backed(s: Map<i64, Obstacle>, m: Map<(u32, u32), (Seq<u8>, bool)>) -> bool {
    &&& forall|k: i64| #[trigger]
        s.dom().contains(k) ==> m.dom().contains(s[k].handle) && !m[s[k].handle].1
    &&& forall|k: i64, l: i64| #[trigger]
        s.dom().contains(k) && #[trigger] s.dom().contains(l) && k != l ==> s[k].handle != s[l].handle
}

/// After a move every obstacle lies in the range, those that were loaded there
/// before stay as they are, and every other slot has what its hull says.
pub proof fn law_obstacles_stay_put(
    s: Map<i64, Obstacle>,
    m: Map<(u32, u32), (Seq<u8>, bool)>,
    left: i64,
    right: i64,
    hulls: Seq<Option<Hull>>,
    t: Map<i64, Obstacle>,
    o: Map<(u32, u32), (Seq<u8>, bool)>,
    k: i64,
)
    requires
        moved(s, m, left, right, hulls, t, o),
    ensures
        t.dom().contains(k) ==> in_range(k, left, right),
        in_range(k, left, right) && s.dom().contains(k) ==> t.dom().contains(k) && t[k] == s[k],
        in_range(k, left, right) && !s.dom().contains(k) ==> exists|j: int|
            0 <= j < vacant(s, left, right).len() && #[trigger] vacant(s, left, right)[j] == k && (
            t.dom().contains(k) <==> hulls[j] is Some),
{
    lemma_vacant(s, left, right);
    let ks = vacant(s, left, right);
    let kept = staying(s, left, right);
    if t.dom().contains(k) && !kept.dom().contains(k) {
        let j = choose|j: int| 0 <= j < ks.len() && #[trigger] ks[j] == k && hulls[j] is Some;
        assert(ks.contains(ks[j]));
    }
    if in_range(k, left, right) && !s.dom().contains(k) {
        assert(ks.contains(k));
        let j = choose|j: int| 0 <= j < ks.len() && ks[j] == k;
        assert(ks[j] == k);
    }
}

/// A move that drops nothing and finds nothing to load changes nothing.
pub proof fn law_move_in_place_changes_nothing(
    s: Map<i64, Obstacle>,
    m: Map<(u32, u32), (Seq<u8>, bool)>,
    left: i64,
    right: i64,
    hulls: Seq<Option<Hull>>,
    t: Map<i64, Obstacle>,
    o: Map<(u32, u32), (Seq<u8>, bool)>,
)
    requires
        forall|k: i64| #[trigger] s.dom().contains(k) ==> in_range(k, left, right),
        forall|j: int| 0 <= j < vacant(s, left, right).len() ==> (#[trigger] hulls[j]) is None,
        moved(s, m, left, right, hulls, t, o),
    ensures
        t == s,
        o == m,
{
    let ks = vacant(s, left, right);
    let out = leaving(s, left, right);
    assert(staying(s, left, right) =~= s);
    assert forall|k: i64| !(#[trigger] out.contains(k)) by {}
    assert(m.remove_keys(handles_at(s, out)) =~= m);
    lemma_with_no_hulls(m, ks, hulls, t, ks.len() as int);
    assert(t =~= s);
}

proof fn lemma_with_no_hulls(
    m: Map<(u32, u32), (Seq<u8>, bool)>,
    ks: Seq<i64>,
    hulls: Seq<Option<Hull>>,
    f: Map<i64, Obstacle>,
    n: int,
)
    requires
        forall|j: int| 0 <= j < n ==> (#[trigger] hulls[j]) is None,
    ensures
        with_hulls(m, ks, hulls, f, n) == m,
    decreases n,
{
    if n > 0 {
        lemma_with_no_hulls(m, ks, hulls, f, n - 1);
    }
}

/// What the hulls leave alone stays as it is, and the hulls are attached to no body.
proof fn lemma_with_hulls_value(
    m: Map<(u32, u32), (Seq<u8>, bool)>,
    ks: Seq<i64>,
    hulls: Seq<Option<Hull>>,
    f: Map<i64, Obstacle>,
    n: int,
    h: (u32, u32),
)
    requires
        0 <= n <= ks.len(),
        with_hulls(m, ks, hulls, f, n).dom().contains(h),
    ensures
        m.dom().contains(h) && (forall|j: int|
            0 <= j < n && hulls[j] is Some ==> f[#[trigger] ks[j]].handle != h) ==> with_hulls(
            m,
            ks,
            hulls,
            f,
            n,
        )[h] == m[h],
        (exists|j: int| 0 <= j < n && hulls[j] is Some && f[#[trigger] ks[j]].handle == h)
            ==> !with_hulls(m, ks, hulls, f, n)[h].1,
    decreases n,
{
    if n > 0 {
        let w = with_hulls(m, ks, hulls, f, n - 1);
        if hulls[n - 1] is Some && f[ks[n - 1]].handle == h {
        } else {
            lemma_with_hulls_value(m, ks, hulls, f, n - 1, h);
            assert(with_hulls(m, ks, hulls, f, n)[h] == w[h]);
        }
    }
}

/// The colliders of the obstacles stay in the collider set, each under a handle of
/// its own: what the set holds for them follows the field.
pub proof fn law_move_keeps_obstacles_backed(
    s: Map<i64, Obstacle>,
    m: Map<(u32, u32), (Seq<u8>, bool)>,
    left: i64,
    right: i64,
    hulls: Seq<Option<Hull>>,
    t: Map<i64, Obstacle>,
    o: Map<(u32, u32), (Seq<u8>, bool)>,
)
    requires
        backed(s, m),
        moved(s, m, left, right, hulls, t, o),
    ensures
        backed(t, o),
{
    let ks = vacant(s, left, right);
    let out = leaving(s, left, right);
    let rest = m.remove_keys(handles_at(s, out));
    let kept = staying(s, left, right);
    let n = ks.len() as int;
    assert forall|k: i64| #[trigger] kept.dom().contains(k) implies rest.dom().contains(kept[k].handle)
        && !rest[kept[k].handle].1 && kept[k] == s[k] by {
        assert(s.dom().contains(k));
        if handles_at(s, out).contains(s[k].handle) {
            let l = choose|l: i64| #[trigger] out.contains(l) && s[l].handle == s[k].handle;
            assert(s.dom().contains(l));
        }
    }
    assert forall|k: i64| #[trigger] t.dom().contains(k) implies o.dom().contains(t[k].handle)
        && !o[t[k].handle].1 by {
        let h = t[k].handle;
        lemma_with_hulls_dom(rest, ks, hulls, t, n, h);
        if kept.dom().contains(k) {
            lemma_with_hulls_value(rest, ks, hulls, t, n, h);
        } else {
            let j = choose|j: int| 0 <= j < n && #[trigger] ks[j] == k && hulls[j] is Some;
            assert(t[ks[j]].handle == h);
            lemma_with_hulls_value(rest, ks, hulls, t, n, h);
        }
    }
    assert forall|k: i64, l: i64| #[trigger]
        t.dom().contains(k) && #[trigger] t.dom().contains(l) && k != l implies t[k].handle != t[l].handle by {
        if kept.dom().contains(k) && kept.dom().contains(l) {
            assert(s.dom().contains(k) && s.dom().contains(l));
        } else if kept.dom().contains(k) {
            let j = choose|j: int| 0 <= j < n && #[trigger] ks[j] == l && hulls[j] is Some;
            assert(!rest.dom().contains(t[ks[j]].handle));
        } else if kept.dom().contains(l) {
            let j = choose|j: int| 0 <= j < n && #[trigger] ks[j] == k && hulls[j] is Some;
            assert(!rest.dom().contains(t[ks[j]].handle));
        } else {
            let i = choose|i: int| 0 <= i < n && #[trigger] ks[i] == k && hulls[i] is Some;
            let j = choose|j: int| 0 <= j < n && #[trigger] ks[j] == l && hulls[j] is Some;
            assert(ks[i] == k && ks[j] == l);
        }
    }
}

/// Whether `a` and `b` stand for the same obstacle, or both for none.
pub open spec fn alike(a: Option<Hull>, b: Option<Hull>) -> bool {
    match (a, b) {
        (Some(g), Some(h)) => {
            &&& g.cx == h.cx && g.cy == h.cy && g.rot == h.rot && g.verts@ == h.verts@
            &&& collider_data(g.collider) == collider_data(h.collider)
        },
        (None, None) => true,
        _ => false,
    }
}

/// Whether the loaded obstacles are those that `world` has at the slots from `left`
/// to `right`, each with its collider among `m`.
pub open spec fn shows(
    s: Map<i64, Obstacle>,
    m: Map<(u32, u32), (Seq<u8>, bool)>,
    left: i64,
    right: i64,
    world: spec_fn(i64) -> Option<Hull>,
) -> bool {
    &&& backed(s, m)
    &&& forall|k: i64| #[trigger]
        s.dom().contains(k) <==> in_range(k, left, right) && world(k) is Some
    &&& forall|k: i64| #[trigger]
        s.dom().contains(k) ==> comes_of(s[k], world(k)->0) && m[s[k].handle].0 == collider_data(
            world(k)->0.collider,
        )
}

/// An obstacle has the data of the collider that it was loaded with.
proof fn lemma_with_hulls_data(
    m: Map<(u32, u32), (Seq<u8>, bool)>,
    ks: Seq<i64>,
    hulls: Seq<Option<Hull>>,
    f: Map<i64, Obstacle>,
    n: int,
    j: int,
)
    requires
        0 <= j < n <= ks.len(),
        hulls[j] is Some,
        forall|i: int|
            j < i < n && hulls[i] is Some ==> f[#[trigger] ks[i]].handle != f[ks[j]].handle,
    ensures
        with_hulls(m, ks, hulls, f, n)[f[ks[j]].handle].0 == collider_data(hulls[j]->0.collider),
    decreases n,
{
    if j < n - 1 {
        lemma_with_hulls_data(m, ks, hulls, f, n - 1, j);
        lemma_with_hulls_dom(m, ks, hulls, f, n - 1, f[ks[j]].handle);
        assert(hulls[n - 1] is Some ==> f[ks[n - 1]].handle != f[ks[j]].handle);
    }
}

/// Obstacles stay put as the player flies back and forth: if the field shows the
/// obstacles of `world` in one range of slots, and the vacant slots of another range
/// are loaded from `world`, then it shows those of `world` in the other range.
pub proof fn law_move_shows_the_world(
    s: Map<i64, Obstacle>,
    m: Map<(u32, u32), (Seq<u8>, bool)>,
    was_left: i64,
    was_right: i64,
    left: i64,
    right: i64,
    hulls: Seq<Option<Hull>>,
    t: Map<i64, Obstacle>,
    o: Map<(u32, u32), (Seq<u8>, bool)>,
    world: spec_fn(i64) -> Option<Hull>,
)
    requires
        shows(s, m, was_left, was_right, world),
        moved(s, m, left, right, hulls, t, o),
        forall|j: int|
            0 <= j < vacant(s, left, right).len() ==> alike(
                hulls[j],
                world(#[trigger] vacant(s, left, right)[j]),
            ),
    ensures
        shows(t, o, left, right, world),
{
    law_move_keeps_obstacles_backed(s, m, left, right, hulls, t, o);
    lemma_vacant(s, left, right);
    let ks = vacant(s, left, right);
    let out = leaving(s, left, right);
    let rest = m.remove_keys(handles_at(s, out));
    let kept = staying(s, left, right);
    let n = ks.len() as int;
    assert forall|k: i64| #[trigger]
        t.dom().contains(k) <==> in_range(k, left, right) && world(k) is Some by {
        law_obstacles_stay_put(s, m, left, right, hulls, t, o, k);
    }
    assert forall|k: i64| #[trigger] t.dom().contains(k) implies comes_of(t[k], world(k)->0)
        && o[t[k].handle].0 == collider_data(world(k)->0.collider) by {
        let h = t[k].handle;
        lemma_with_hulls_dom(rest, ks, hulls, t, n, h);
        if kept.dom().contains(k) {
            assert(s.dom().contains(k) && t[k] == s[k]);
            assert forall|j: int| 0 <= j < n && hulls[j] is Some implies t[#[trigger] ks[j]].handle != h by {
                assert(t.dom().contains(ks[j]));
                assert(!kept.dom().contains(ks[j]));
            }
            lemma_with_hulls_value(rest, ks, hulls, t, n, h);
        } else {
            let j = choose|j: int| 0 <= j < n && #[trigger] ks[j] == k && hulls[j] is Some;
            assert forall|i: int| j < i < n && hulls[i] is Some implies t[#[trigger] ks[i]].handle
                != t[ks[j]].handle by {}
            lemma_with_hulls_data(rest, ks, hulls, t, n, j);
        }
    }
}

/// The colliders that belong to no obstacle stay in the set as they are.
pub proof fn law_move_leaves_other_colliders(
    s: Map<i64, Obstacle>,
    m: Map<(u32, u32), (Seq<u8>, bool)>,
    left: i64,
    right: i64,
    hulls: Seq<Option<Hull>>,
    t: Map<i64, Obstacle>,
    o: Map<(u32, u32), (Seq<u8>, bool)>,
    h: (u32, u32),
)
    requires
        moved(s, m, left, right, hulls, t, o),
        m.dom().contains(h),
        !handles_at(s, s.dom()).contains(h),
    ensures
        o.dom().contains(h),
        o[h] == m[h],
        !handles_at(t, t.dom()).contains(h),
{
    let ks = vacant(s, left, right);
    let out = leaving(s, left, right);
    let rest = m.remove_keys(handles_at(s, out));
    let kept = staying(s, left, right);
    let n = ks.len() as int;
    if handles_at(s, out).contains(h) {
        let l = choose|l: i64| #[trigger] out.contains(l) && s[l].handle == h;
        assert(s.dom().contains(l));
    }
    assert(rest.dom().contains(h) && rest[h] == m[h]);
    lemma_with_hulls_dom(rest, ks, hulls, t, n, h);
    lemma_with_hulls_value(rest, ks, hulls, t, n, h);
    if handles_at(t, t.dom()).contains(h) {
        let k = choose|k: i64| #[trigger] t.dom().contains(k) && t[k].handle == h;
        if kept.dom().contains(k) {
            assert(s.dom().contains(k) && t[k] == s[k]);
        } else {
            let j = choose|j: int| 0 <= j < n && #[trigger] ks[j] == k && hulls[j] is Some;
            assert(!rest.dom().contains(t[ks[j]].handle));
        }
    }
}

/// What a filter keeps of an increasing sequence is increasing.
proof fn lemma_filter_increasing(s: Seq<i64>, p: spec_fn(i64) -> bool)
    requires
        forall|i: int, j: int| 0 <= i < j < s.len() ==> s[i] < s[j],
    ensures
        forall|i: int, j: int| 0 <= i < j < s.filter(p).len() ==> s.filter(p)[i] < s.filter(p)[j],
        forall|i: int| 0 <= i < s.filter(p).len() ==> s.contains(#[trigger] s.filter(p)[i]),
    decreases s.len(),
{
    reveal(Seq::filter);
    if s.len() > 0 {
        let t = s.drop_last();
        assert forall|i: int, j: int| 0 <= i < j < t.len() implies t[i] < t[j] by {
            assert(t[i] == s[i] && t[j] == s[j]);
        }
        lemma_filter_increasing(t, p);
        let u = t.filter(p);
        let v = s.filter(p);
        assert forall|i: int| 0 <= i < u.len() implies s.contains(#[trigger] u[i]) && u[i] < s.last() by {
            let x = choose|x: int| 0 <= x < t.len() && t[x] == u[i];
            assert(s[x] == u[i]);
            assert(s[s.len() - 1] == s.last());
        }
        assert(s.contains(s.last())) by {
            assert(s[s.len() - 1] == s.last());
        }
        assert(v == if p(s.last()) {
            u.push(s.last())
        } else {
            u
        });
        assert forall|i: int| 0 <= i < v.len() implies s.contains(#[trigger] v[i]) by {
            if i < u.len() {
                assert(v[i] == u[i]);
            }
        }
        assert forall|i: int, j: int| 0 <= i < j < v.len() implies v[i] < v[j] by {
            assert(v[i] == u[i]);
            if j < u.len() {
                assert(v[j] == u[j]);
            }
        }
    }
}

/// The vacant slots are all those from `left` to `right` where nothing is loaded, in
/// increasing order.
pub proof fn law_vacant_slots_have_no_obstacle(m: Map<i64, Obstacle>, left: i64, right: i64)
    ensures
        forall|k: i64| #[trigger]
            vacant(m, left, right).contains(k) <==> left <= k && k <= right && !m.dom().contains(k),
        forall|i: int, j: int|
            0 <= i < j < vacant(m, left, right).len() ==> vacant(m, left, right)[i] < vacant(
                m,
                left,
                right,
            )[j],
{
    lemma_vacant(m, left, right);
    lemma_filter_increasing(slots_between(left, right), |k: i64| !m.dom().contains(k));
}

/// Each loaded obstacle either stays or leaves: those from `left` to `right` stay as
/// they are, and those to the left and to the right of that leave.
pub proof fn law_obstacles_stay_or_leave(m: Map<i64, Obstacle>, left: i64, right: i64, k: i64)
    ensures
        staying(m, left, right).dom().contains(k) <==> m.dom().contains(k) && left <= k && k <= right,
        staying(m, left, right).dom().contains(k) ==> staying(m, left, right)[k] == m[k],
        leaving(m, left, right).contains(k) <==> m.dom().contains(k) && (k < left || right < k),
{
}

/// A handle belongs to the slots exactly if the obstacle of one of them has it.
pub proof fn law_handles_are_those_of_the_obstacles(
    m: Map<i64, Obstacle>,
    ks: Set<i64>,
    h: (u32, u32),
)
    ensures
        handles_at(m, ks).contains(h) <==> exists|k: i64| #[trigger] ks.contains(k) && m[k].handle == h,
{
}

/// The hulls are counted one by one, and the slots without one are not.
pub proof fn law_hulls_are_counted(hulls: Seq<Option<Hull>>, n: int)
    requires
        0 <= n,
    ensures
        hulls_among(hulls, 0) == 0,
        hulls[n] is Some ==> hulls_among(hulls, n + 1) == hulls_among(hulls, n) + 1,
        hulls[n] is None ==> hulls_among(hulls, n + 1) == hulls_among(hulls, n),
{
}

/// What is drawn matches the collider: an obstacle that comes of a hull has the place,
/// the height, the angle and the vertices of the hull, and hulls that are alike give
/// the same obstacle.
pub proof fn law_obstacle_has_the_geometry_of_its_hull(o: Obstacle, g: Hull, h: Hull)
    ensures
        comes_of(o, h) <==> o.cx == h.cx && o.cy == h.cy && o.rot == h.rot && o.verts@ == h.verts@,
        alike(Some(g), Some(h)) <==> g.cx == h.cx && g.cy == h.cy && g.rot == h.rot && g.verts@
            == h.verts@ && collider_data(g.collider) == collider_data(h.collider),
        !alike(Some(g), None),
        !alike(None, Some(h)),
        alike(None, None),
{
}

/// What a move does at one slot. Outside the range nothing is loaded after it. In the
/// range, what was loaded stays as it was; and a slot where nothing was loaded has an
/// obstacle exactly if it has a hull, with the place, the height, the angle and the
/// vertices of the hull, and with the collider of the hull, attached to no body, under
/// a handle that nothing else had.
pub proof fn law_move_at_a_slot(
    s: Map<i64, Obstacle>,
    m: Map<(u32, u32), (Seq<u8>, bool)>,
    left: i64,
    right: i64,
    hulls: Seq<Option<Hull>>,
    t: Map<i64, Obstacle>,
    o: Map<(u32, u32), (Seq<u8>, bool)>,
    k: i64,
    j: int,
)
    requires
        moved(s, m, left, right, hulls, t, o),
    ensures
        k < left || right < k ==> !t.dom().contains(k),
        left <= k && k <= right && s.dom().contains(k) ==> t.dom().contains(k) && t[k] == s[k],
        left <= k && k <= right && !s.dom().contains(k) ==> vacant(s, left, right).contains(k),
        0 <= j < vacant(s, left, right).len() && vacant(s, left, right)[j] == k ==> {
            &&& t.dom().contains(k) <==> hulls[j] is Some
            &&& hulls[j] matches Some(h) ==> {
                &&& t[k].cx == h.cx
                &&& t[k].cy == h.cy
                &&& t[k].rot == h.rot
                &&& t[k].verts@ == h.verts@
                &&& o.dom().contains(t[k].handle)
                &&& o[t[k].handle] == (collider_data(h.collider), false)
                &&& m.dom().contains(t[k].handle) ==> exists|l: i64| #[trigger]
                    s.dom().contains(l) && (l < left || right < l) && s[l].handle == t[k].handle
            }
        },
{
    law_obstacles_stay_put(s, m, left, right, hulls, t, o, k);
    law_vacant_slots_have_no_obstacle(s, left, right);
    let ks = vacant(s, left, right);
    let rest = remaining(s, m, left, right);
    let out = leaving(s, left, right);
    let n = ks.len() as int;
    if 0 <= j < n && ks[j] == k {
        assert(ks.contains(ks[j]));
        assert forall|i: int| 0 <= i < n && ks[i] == k implies i == j by {
            if i < j {
                assert(ks[i] < ks[j]);
            } else if j < i {
                assert(ks[j] < ks[i]);
            }
        }
        if hulls[j] is Some {
            assert(ks[j] == k);
            let h = t[k].handle;
            assert(comes_of(t[ks[j]], hulls[j]->0) && !rest.dom().contains(t[ks[j]].handle));
            lemma_with_hulls_dom(rest, ks, hulls, t, n, h);
            lemma_with_hulls_value(rest, ks, hulls, t, n, h);
            assert forall|i: int| j < i < n && hulls[i] is Some implies t[#[trigger] ks[i]].handle
                != t[ks[j]].handle by {
                assert(ks[j] == k);
            }
            lemma_with_hulls_data(rest, ks, hulls, t, n, j);
            if m.dom().contains(h) {
                assert(handles_at(s, out).contains(h));
                let l = choose|l: i64| #[trigger] out.contains(l) && s[l].handle == h;
                assert(s.dom().contains(l));
            }
        }
    }
}

/// What a move does to one collider. One that belongs to no obstacle outside the range
/// stays as it is; and one that is there afterwards was there before, and belongs to no
/// obstacle that has left, or belongs to an obstacle that was loaded.
pub proof fn law_move_of_a_collider(
    s: Map<i64, Obstacle>,
    m: Map<(u32, u32), (Seq<u8>, bool)>,
    left: i64,
    right: i64,
    hulls: Seq<Option<Hull>>,
    t: Map<i64, Obstacle>,
    o: Map<(u32, u32), (Seq<u8>, bool)>,
    h: (u32, u32),
)
    requires
        moved(s, m, left, right, hulls, t, o),
    ensures
        m.dom().contains(h) && (forall|k: i64| #[trigger]
            s.dom().contains(k) && (k < left || right < k) ==> s[k].handle != h) ==> o.dom().contains(h)
            && o[h] == m[h],
        o.dom().contains(h) ==> (m.dom().contains(h) && (forall|k: i64| #[trigger]
            s.dom().contains(k) && (k < left || right < k) ==> s[k].handle != h)) || (exists|k: i64| #[trigger]
            t.dom().contains(k) && !s.dom().contains(k) && t[k].handle == h),
{
    law_vacant_slots_have_no_obstacle(s, left, right);
    let ks = vacant(s, left, right);
    let out = leaving(s, left, right);
    let rest = remaining(s, m, left, right);
    let n = ks.len() as int;
    lemma_with_hulls_dom(rest, ks, hulls, t, n, h);
    if handles_at(s, out).contains(h) {
        let l = choose|l: i64| #[trigger] out.contains(l) && s[l].handle == h;
        assert(s.dom().contains(l) && (l < left || right < l));
    } else {
        assert forall|k: i64| #[trigger] s.dom().contains(k) && (k < left || right < k) implies s[k].handle
            != h by {
            assert(out.contains(k));
        }
    }
    if rest.dom().contains(h) {
        assert forall|j: int| 0 <= j < n && hulls[j] is Some implies t[#[trigger] ks[j]].handle != h by {}
        lemma_with_hulls_value(rest, ks, hulls, t, n, h);
    }
    if o.dom().contains(h) && !rest.dom().contains(h) {
        let j = choose|j: int| 0 <= j < n && hulls[j] is Some && t[#[trigger] ks[j]].handle == h;
        assert(ks.contains(ks[j]));
        assert(t.dom().contains(ks[j]));
    }
}

/// Bodies are left alone where none of the obstacles that leave is attached to one,
/// and obstacles are backed where each has a collider of its own that is attached to
/// no body.
pub proof fn law_backing_of_obstacles(
    s: Map<i64, Obstacle>,
    ks: Set<i64>,
    m: Map<(u32, u32), (Seq<u8>, bool)>,
)
    ensures
        unattached(s, ks, m) <==> (forall|k: i64| #[trigger]
            ks.contains(k) && m.dom().contains(s[k].handle) ==> !m[s[k].handle].1),
        backed(s, m) <==> (forall|k: i64| #[trigger]
            s.dom().contains(k) ==> m.dom().contains(s[k].handle) && !m[s[k].handle].1) && (forall|
            k: i64,
            l: i64,
        | #[trigger]
            s.dom().contains(k) && #[trigger] s.dom().contains(l) && k != l ==> s[k].handle != s[l].handle),
{
}

/// The field shows the world in a range exactly if the slots of the range that have an
/// obstacle in the world are those that have one loaded, each with the place, the
/// height, the angle, the vertices and the collider that it has in the world.
pub proof fn law_shown_obstacles_are_those_of_the_world(
    s: Map<i64, Obstacle>,
    m: Map<(u32, u32), (Seq<u8>, bool)>,
    left: i64,
    right: i64,
    world: spec_fn(i64) -> Option<Hull>,
)
    ensures
        shows(s, m, left, right, world) <==> backed(s, m) && (forall|k: i64| #[trigger]
            s.dom().contains(k) <==> left <= k && k <= right && world(k) is Some) && (forall|k: i64| #[trigger]
            s.dom().contains(k) ==> s[k].cx == world(k)->0.cx && s[k].cy == world(k)->0.cy && s[k].rot
                == world(k)->0.rot && s[k].verts@ == world(k)->0.verts@ && m[s[k].handle].0
                == collider_data(world(k)->0.collider)),
{
    if backed(s, m) && (forall|k: i64| #[trigger]
        s.dom().contains(k) <==> left <= k && k <= right && world(k) is Some) && (forall|k: i64| #[trigger]
        s.dom().contains(k) ==> s[k].cx == world(k)->0.cx && s[k].cy == world(k)->0.cy && s[k].rot
            == world(k)->0.rot && s[k].verts@ == world(k)->0.verts@ && m[s[k].handle].0 == collider_data(
            world(k)->0.collider,
        )) {
        assert forall|k: i64| #[trigger]
            s.dom().contains(k) <==> in_range(k, left, right) && world(k) is Some by {}
        assert(shows(s, m, left, right, world));
    }
}

} // verus!
