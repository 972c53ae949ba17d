use rapier2d::dynamics::{IslandManager, RigidBodyBuilder, RigidBodySet};
use rapier2d::geometry::{Collider, ColliderBuilder, ColliderHandle};
use rapier2d::math::Point;
use rapier_cave::cave::{insert_seg, CaveWindow};
use rapier_cave::colliders::{max_colliders, ColliderStore};
use rapier_cave::field::{Hull, ObstacleField};
use std::collections::VecDeque;

fn wall(idx: i64, y: f32) -> Collider {
    let x = idx as f32 * 3.0;
    ColliderBuilder::segment(Point::new(x, y), Point::new(x + 3.0, y)).friction(0.5).build()
}

fn pair(idx: i64) -> (Collider, Collider) {
    (wall(idx, 5.0), wall(idx, -5.0))
}

fn pairs(ids: &[i64]) -> VecDeque<(Collider, Collider)> {
    ids.iter().map(|&i| pair(i)).collect()
}

fn handle(h: (u32, u32)) -> ColliderHandle {
    ColliderHandle::from_raw_parts(h.0, h.1)
}

/// The left end of the segment behind a handle.
fn left_end(store: &ColliderStore, h: (u32, u32)) -> (f32, f32) {
    let shape = store.set.get(handle(h)).expect("collider").shape();
    let seg = shape.as_segment().expect("segment");
    (seg.a.x, seg.a.y)
}

struct World {
    store: ColliderStore,
    islands: IslandManager,
    bodies: RigidBodySet,
    cave: CaveWindow,
}

fn world() -> World {
    let mut store = ColliderStore::new();
    let ids = CaveWindow::initial_segments();
    let cave = CaveWindow::new(pairs(&ids), &mut store);
    World { store, islands: IslandManager::new(), bodies: RigidBodySet::new(), cave }
}

impl World {
    fn go(&mut self, seg: i64) -> Vec<i64> {
        let ids = self.cave.missing(seg);
        self.cave.slide(seg, pairs(&ids), &mut self.store, &mut self.islands, &mut self.bodies);
        ids
    }

    fn indices(&self) -> Vec<i64> {
        self.cave.segs.iter().map(|g| g.idx).collect()
    }

    fn check_backing_of_walls(&self) {
        for g in &self.cave.segs {
            let x = g.idx as f32 * 3.0;
            assert_eq!(left_end(&self.store, g.top), (x, 5.0));
            assert_eq!(left_end(&self.store, g.bot), (x, -5.0));
        }
    }

    fn check_backing(&self) {
        self.check_backing_of_walls();
        assert_eq!(self.store.len(), 2 * self.cave.segs.len());
    }
}

#[test]
fn store_keeps_what_it_is_given() {
    let mut store = ColliderStore::new();
    let mut islands = IslandManager::new();
    let mut bodies = RigidBodySet::new();
    assert_eq!(store.len(), 0);
    let a = store.insert(wall(1, 5.0));
    let b = store.insert(wall(2, 5.0));
    assert_ne!(a, b);
    assert_eq!(store.len(), 2);
    assert_eq!(store.set.len(), 2);
    assert_eq!(left_end(&store, a), (3.0, 5.0));
    assert_eq!(left_end(&store, b), (6.0, 5.0));
    let out = store.remove(a, &mut islands, &mut bodies).expect("collider");
    assert_eq!(out.shape().as_segment().unwrap().a.x, 3.0);
    assert!(store.set.get(handle(a)).is_none());
    assert!(store.remove(a, &mut islands, &mut bodies).is_none());
    assert_eq!((store.len(), store.removals), (1, 1));
    // The place is used again, under another generation.
    let c = store.insert(wall(3, 5.0));
    assert_ne!(a, c);
    assert_eq!(left_end(&store, c), (9.0, 5.0));
}

#[test]
fn store_room() {
    let max = max_colliders();
    assert_eq!(max, if usize::BITS == 32 { 1 << 23 } else { 1 << 31 });
    let mut store = ColliderStore::new();
    assert!(store.has_room(max, u32::MAX as usize));
    assert!(!store.has_room(max + 1, 0));
    store.insert(wall(1, 5.0));
    assert!(!store.has_room(max, 0));
    assert!(store.has_room(max - 1, 0));
    store.removals = u32::MAX - 1;
    assert!(store.has_room(0, 1));
    assert!(!store.has_room(0, 2));
}

#[test]
fn removal_detaches_from_the_body() {
    let mut store = ColliderStore::new();
    let mut islands = IslandManager::new();
    let mut bodies = RigidBodySet::new();
    let ship = bodies.insert(RigidBodyBuilder::dynamic().build());
    let h = store.set.insert_with_parent(ColliderBuilder::ball(0.5).build(), ship, &mut bodies);
    assert_eq!(bodies[ship].colliders().len(), 1);
    assert!(store.remove(h.into_raw_parts(), &mut islands, &mut bodies).is_some());
    assert_eq!(bodies[ship].colliders().len(), 0);
}

#[test]
fn ceiling_and_floor_of_a_segment() {
    let mut store = ColliderStore::new();
    let (t, b) = insert_seg(wall(4, 5.0), wall(4, -5.0), &mut store);
    assert_eq!(left_end(&store, t), (12.0, 5.0));
    assert_eq!(left_end(&store, b), (12.0, -5.0));
}

#[test]
fn first_window() {
    let w = world();
    assert_eq!(w.indices(), (-80..=80).collect::<Vec<i64>>());
    w.check_backing();
}

#[test]
fn slide_in_place() {
    let mut w = world();
    let before: Vec<_> = w.cave.segs.iter().copied().collect();
    assert!(w.go(0).is_empty());
    assert_eq!(w.cave.evictions(0), 0);
    assert_eq!(w.cave.segs.iter().copied().collect::<Vec<_>>(), before);
    assert_eq!(w.store.removals, 0);
}

#[test]
fn slide_to_the_right_and_back() {
    let mut w = world();
    let stay = w.cave.segs[100];
    assert_eq!(w.cave.evictions(3), 3);
    assert_eq!(w.go(3), vec![81, 82, 83]);
    assert_eq!(w.indices(), (-77..=83).collect::<Vec<i64>>());
    assert_eq!(w.cave.segs[97], stay);
    assert_eq!(w.store.removals, 6);
    w.check_backing();
    assert_eq!(w.go(1), vec![-78, -79]);
    assert_eq!(w.indices(), (-79..=81).collect::<Vec<i64>>());
    w.check_backing();
}

#[test]
fn slide_by_the_whole_window() {
    let mut w = world();
    assert_eq!(w.go(160), (81..=240).collect::<Vec<i64>>());
    assert_eq!(w.indices(), (80..=240).collect::<Vec<i64>>());
    w.check_backing();
    assert_eq!(w.go(0), (-80..=79).rev().collect::<Vec<i64>>());
    assert_eq!(w.indices(), (-80..=80).collect::<Vec<i64>>());
    w.check_backing();
}

#[test]
fn slide_beyond_the_window() {
    let mut w = world();
    w.go(100);
    w.go(200);
    w.go(300);
    // Nothing is left of the window; all of it is loaded anew.
    assert_eq!(w.cave.evictions(0), 161);
    assert_eq!(w.go(0), (-80..=80).collect::<Vec<i64>>());
    assert_eq!(w.indices(), (-80..=80).collect::<Vec<i64>>());
    w.check_backing();
    assert!(w.go(0).is_empty());
    assert_eq!(w.indices(), (-80..=80).collect::<Vec<i64>>());
    assert_eq!(w.go(-500), (-580..=-420).collect::<Vec<i64>>());
    w.check_backing();
}

#[test]
fn slide_of_an_empty_window_fills_it() {
    let mut w = world();
    w.cave.segs.clear();
    assert_eq!(w.cave.missing(7), (-73..=87).collect::<Vec<i64>>());
    w.go(7);
    assert_eq!(w.indices(), (-73..=87).collect::<Vec<i64>>());
    w.check_backing_of_walls();
}

#[test]
fn segment_loaded_twice() {
    let mut store = ColliderStore::new();
    let (top, bot) = pair(4);
    let first = insert_seg(top, bot, &mut store);
    let (top, bot) = pair(4);
    let second = insert_seg(top, bot, &mut store);
    let mut all = vec![first.0, first.1, second.0, second.1];
    all.sort();
    all.dedup();
    assert_eq!((all.len(), store.len()), (4, 4));
    assert_eq!(left_end(&store, first.0), left_end(&store, second.0));
    assert_eq!(left_end(&store, first.1), left_end(&store, second.1));
}

#[test]
fn slide_of_a_short_window_grows_at_both_ends() {
    let mut w = world();
    w.cave.segs.truncate(100);
    while w.cave.segs.len() > 3 {
        w.cave.segs.pop_front();
    }
    // What is left are the segments 17 to 19.
    let ids = w.cave.missing(0);
    let expected: Vec<i64> = (-80..17).rev().chain(20..=80).collect();
    assert_eq!(ids, expected);
    w.go(0);
    assert_eq!(w.indices(), (-80..=80).collect::<Vec<i64>>());
}

#[test]
fn slide_leaves_the_ship_alone() {
    let mut w = world();
    let ship = w.bodies.insert(RigidBodyBuilder::dynamic().build());
    let h = w.store.set.insert_with_parent(ColliderBuilder::cuboid(0.5, 0.5).build(), ship, &mut w.bodies);
    w.go(40);
    w.go(-40);
    assert!(w.store.set.get(h).is_some());
    assert_eq!(w.bodies[ship].colliders().len(), 1);
}

#[test]
fn try_slide_within_and_beyond_the_limits() {
    let mut w = world();
    let ids = w.cave.missing(2);
    assert!(w.cave.try_slide(2, pairs(&ids), &mut w.store, &mut w.islands, &mut w.bodies));
    assert_eq!(w.indices(), (-78..=82).collect::<Vec<i64>>());
    w.store.removals = u32::MAX - 3;
    let ids = w.cave.missing(4);
    assert!(!w.cave.try_slide(4, pairs(&ids), &mut w.store, &mut w.islands, &mut w.bodies));
    assert_eq!(w.indices(), (-78..=82).collect::<Vec<i64>>());
    w.check_backing();
}

fn hull(k: i64) -> Option<Hull> {
    if k % 3 == 0 {
        return None;
    }
    let x = k as f32 * 16.0;
    let pts = [Point::new(-1.0, -1.0), Point::new(1.0, -1.0), Point::new(0.0, 1.0)];
    Some(Hull {
        collider: ColliderBuilder::convex_hull(&pts).unwrap().translation([x, 0.0].into()).build(),
        cx: x.to_bits(),
        cy: 0,
        rot: (k as f32).to_bits(),
        verts: pts.iter().map(|p| (p.x.to_bits(), p.y.to_bits())).collect(),
    })
}

fn hulls(ks: &[i64]) -> VecDeque<Option<Hull>> {
    ks.iter().map(|&k| hull(k)).collect()
}

fn loaded(f: &ObstacleField) -> Vec<i64> {
    let mut ks: Vec<i64> = f.slots.keys().copied().collect();
    ks.sort();
    ks
}

#[test]
fn field_loads_and_unloads() {
    let mut store = ColliderStore::new();
    let mut islands = IslandManager::new();
    let mut bodies = RigidBodySet::new();
    let mut f = ObstacleField::new();
    let ks = f.vacant(-2, 4);
    assert_eq!(ks, vec![-2, -1, 0, 1, 2, 3, 4]);
    f.slide(-2, 4, hulls(&ks), &mut store, &mut islands, &mut bodies);
    assert_eq!(loaded(&f), vec![-2, -1, 1, 2, 4]);
    assert_eq!(store.len(), 5);
    let two = f.slots[&2].handle;
    for (k, o) in &f.slots {
        assert_eq!(o.cx, (*k as f32 * 16.0).to_bits());
        assert_eq!(o.rot, (*k as f32).to_bits());
        assert_eq!(o.verts.len(), 3);
        assert_eq!(store.set.get(handle(o.handle)).unwrap().translation().x, *k as f32 * 16.0);
    }

    let gone: Vec<_> = [-2i64, -1].iter().map(|k| f.slots[k].handle).collect();
    let mut leaving = f.leaving(0, 7);
    leaving.sort();
    assert_eq!(leaving, vec![-2, -1]);
    let ks = f.vacant(0, 7);
    assert_eq!(ks, vec![0, 3, 5, 6, 7]);
    f.slide(0, 7, hulls(&ks), &mut store, &mut islands, &mut bodies);
    assert_eq!(loaded(&f), vec![1, 2, 4, 5, 7]);
    assert_eq!(f.slots[&2].handle, two);
    assert_eq!((store.len(), store.removals), (5, 2));
    for h in gone {
        assert!(store.set.get(handle(h)).is_none());
    }
}

#[test]
fn field_in_place() {
    let mut store = ColliderStore::new();
    let mut islands = IslandManager::new();
    let mut bodies = RigidBodySet::new();
    let mut f = ObstacleField::new();
    let ks = f.vacant(1, 3);
    f.slide(1, 3, hulls(&ks), &mut store, &mut islands, &mut bodies);
    let before = (loaded(&f), f.slots[&1].handle, store.len(), store.removals);
    let ks = f.vacant(1, 3);
    assert_eq!(ks, vec![3]);
    f.slide(1, 3, hulls(&ks), &mut store, &mut islands, &mut bodies);
    assert_eq!((loaded(&f), f.slots[&1].handle, store.len(), store.removals), before);
}

#[test]
fn field_over_an_empty_range() {
    let mut store = ColliderStore::new();
    let mut islands = IslandManager::new();
    let mut bodies = RigidBodySet::new();
    let mut f = ObstacleField::new();
    f.spawn_obstacle(5, hull(5), &mut store);
    f.spawn_obstacle(6, hull(6), &mut store);
    assert_eq!(loaded(&f), vec![5]);
    assert!(f.vacant(3, 2).is_empty());
    f.slide(3, 2, VecDeque::new(), &mut store, &mut islands, &mut bodies);
    assert!(f.slots.is_empty());
    assert_eq!(store.len(), 0);
    assert_eq!(f.vacant(i64::MAX - 1, i64::MAX), vec![i64::MAX - 1, i64::MAX]);
}

#[test]
fn field_try_slide_within_and_beyond_the_limits() {
    let mut store = ColliderStore::new();
    let mut islands = IslandManager::new();
    let mut bodies = RigidBodySet::new();
    let mut f = ObstacleField::new();
    let ks = f.vacant(1, 2);
    assert!(f.try_slide(1, 2, hulls(&ks), &mut store, &mut islands, &mut bodies));
    assert_eq!(loaded(&f), vec![1, 2]);
    store.removals = u32::MAX - 1;
    let ks = f.vacant(4, 5);
    assert!(!f.try_slide(4, 5, hulls(&ks), &mut store, &mut islands, &mut bodies));
    assert_eq!(loaded(&f), vec![1, 2]);
    assert_eq!(store.len(), 2);
}

#[test]
fn walls_and_obstacles_share_the_store() {
    let mut w = world();
    let mut f = ObstacleField::new();
    let ks = f.vacant(-16, 16);
    f.slide(-16, 16, hulls(&ks), &mut w.store, &mut w.islands, &mut w.bodies);
    let obstacles = f.slots.len();
    w.go(120);
    assert_eq!(w.store.len(), 2 * 161 + obstacles);
    for o in f.slots.values() {
        assert!(w.store.set.get(handle(o.handle)).is_some());
    }
    f.slide(100, 99, VecDeque::new(), &mut w.store, &mut w.islands, &mut w.bodies);
    w.check_backing();
}

#[test]
fn there_and_back_shows_the_same() {
    let mut w = world();
    let mut f = ObstacleField::new();
    for seg in [0i64, 40, 75, 150, 90, 12, -60, 0] {
        w.go(seg);
        w.check_backing_of_walls();
        let (left, right) = (seg - 3, seg + 3);
        let ks = f.vacant(left, right);
        f.slide(left, right, hulls(&ks), &mut w.store, &mut w.islands, &mut w.bodies);
        let expected: Vec<i64> = (left..=right).filter(|k| hull(*k).is_some()).collect();
        assert_eq!(loaded(&f), expected);
        for (k, o) in &f.slots {
            let h = hull(*k).unwrap();
            assert_eq!((o.cx, o.cy, o.rot), (h.cx, h.cy, h.rot));
            assert_eq!(o.verts, h.verts);
            let c = w.store.set.get(handle(o.handle)).unwrap();
            assert_eq!(c.translation(), h.collider.translation());
        }
    }
}
