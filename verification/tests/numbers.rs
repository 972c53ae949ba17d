use rapier_cave::controls::{DEAD_ZONE, MINUS_DEAD_ZONE};
use rapier_cave::cave::seg_ends;
use rapier_cave::obstacle::{obstacle_x, MIN_HALF_WIDTH};
use rapier_cave::rng::{hash_u32, Rng};
use rapier_cave::screen::{
    hull_off_screen, off_minimap, view_scale, wall_off_screen, MINIMAP_REACH, MINUS_INFINITY, NARROW,
    NARROW_SCALE, SCALE,
};
use rapier_cave::ship::ship_segment;
use rapier_cave::slots::slot_range;
use rapier_cave::words::{abs, at_most, less, INFINITY, MINUS_ONE, ONE, SIGN, ZERO};

/// Words from all over the format, with the borders between its parts.
fn words() -> Vec<u32> {
    let mut r = vec![
        0, 1, 2, 3, 0x007f_ffff, 0x0080_0000, 0x0080_0001, 0x3f7f_ffff, ONE, 0x3f80_0001, 0x4040_0000, 0x403f_ffff,
        0x4040_0001, 0x4b7f_ffff, 0x4b80_0000, 0x4bbf_ffff, 0x4bc0_0000, 0x5eff_ffff, 0x5f00_0000, 0x5f80_0000,
        0x5fbf_ffff, 0x5fc0_0000, 0x5fc0_0001, 0x7f7f_ffff, INFINITY, 0x7f80_0001, 0x7fc0_0000, 0x7fff_ffff,
    ];
    let mut rng = Rng::new(7);
    for _ in 0..200 {
        r.push(rng.next() & 0x7fff_ffff);
    }
    let signed: Vec<u32> = r.iter().map(|w| w | SIGN).collect();
    r.extend(signed);
    r
}

#[test]
fn constants_are_the_words_of_their_numbers() {
    assert_eq!(ZERO, 0.0f32.to_bits());
    assert_eq!(ONE, 1.0f32.to_bits());
    assert_eq!(MINUS_ONE, (-1.0f32).to_bits());
    assert_eq!(INFINITY, f32::INFINITY.to_bits());
    assert_eq!(SIGN, (-0.0f32).to_bits());
    assert_eq!(MIN_HALF_WIDTH, 4.5f32.to_bits());
    assert_eq!(DEAD_ZONE, 0.1f32.to_bits());
    assert_eq!(MINUS_DEAD_ZONE, (-0.1f32).to_bits());
    assert_eq!(MINUS_INFINITY, f32::NEG_INFINITY.to_bits());
    assert_eq!(NARROW, 600.0f32.to_bits());
    assert_eq!(SCALE, 80.0f32.to_bits());
    assert_eq!(NARROW_SCALE, (80.0f32 * 0.38).to_bits());
    assert_eq!(MINIMAP_REACH, (150.0f32 + 6.0).to_bits());
}

#[test]
fn words_are_ordered_as_their_numbers() {
    let ws = words();
    for &a in &ws {
        assert_eq!(abs(a), f32::from_bits(a).abs().to_bits());
        for &b in &ws {
            assert_eq!(less(a, b), f32::from_bits(a) < f32::from_bits(b), "{a:x} {b:x}");
        }
    }
    assert!(!less(SIGN, ZERO));
    assert!(!less(ZERO, SIGN));
    assert!(!less(0x7fc0_0000, ONE));
    assert!(!less(ONE, 0x7fc0_0000));
}

#[test]
fn caps() {
    let cap = 0.05f32;
    for &a in &words() {
        assert_eq!(at_most(a, cap.to_bits()), f32::from_bits(a).min(cap).to_bits());
    }
    assert_eq!(at_most(0.02f32.to_bits(), cap.to_bits()), 0.02f32.to_bits());
    assert_eq!(at_most(0.2f32.to_bits(), cap.to_bits()), cap.to_bits());
}

#[test]
fn hash_values() {
    assert_eq!(hash_u32(0), 0);
    assert_eq!(hash_u32(1), 0x6889_90c0);
    assert_eq!(hash_u32(2), 0xd113_2181);
    assert_eq!(hash_u32(u32::MAX), 0x6768_824a);
}

#[test]
fn hash_takes_no_two_words_to_one() {
    let mut seen: Vec<u32> = (0..20_000u32).map(hash_u32).collect();
    seen.sort();
    seen.dedup();
    assert_eq!(seen.len(), 20_000);
}

#[test]
fn streams_with_different_seeds_stay_apart() {
    let mut a = Rng::new(1);
    let mut b = Rng::new(2);
    for _ in 0..100 {
        assert_ne!(a.next(), b.next());
    }
}

#[test]
fn generator_values() {
    let mut rng = Rng::new(42);
    assert_eq!(rng, Rng(0xa0df_3600));
    assert_eq!(rng.next(), 0x90ed_54b7);
    assert_eq!(rng.next(), 0xaf99_79ff);
    assert_eq!(rng.next(), 0x0875_65ae);
    let mut rng = Rng::new(42);
    assert_eq!(rng.unit(), 9_497_940);
    assert_eq!(rng.unit(), 11_508_089);
    assert_eq!(rng.unit(), 554_341);
    let mut rng = Rng::new(42);
    assert_eq!(rng.range_int(0, 5), 3);
    assert_eq!(rng.range_int(0, 5), 5);
    assert_eq!(rng.range_int(6, 9), 8);
}

#[test]
fn integer_draws_stay_in_range() {
    let mut rng = Rng::new(3);
    for _ in 0..1000 {
        let d = rng.range_int(-4, 7);
        assert!((-4..=7).contains(&d));
    }
    assert_eq!(rng.range_int(5, 5), 5);
}

#[test]
fn integer_draws_from_a_reversed_range() {
    // The length of the range is -1, which is 2^32 - 1 as a word.
    let mut rng = Rng::new(42);
    assert_eq!(rng.range_int(0, -2), (0x90ed_54b7u32 % u32::MAX) as i32);
}

fn slots_in_floats(want_left: i64, want_right: i64) -> (i64, i64) {
    let win_left_x = want_left as f32 * 3.0;
    let win_right_x = (want_right + 1) as f32 * 3.0;
    (((win_left_x - 3.0) / 16.0).floor() as i64, ((win_right_x + 3.0) / 16.0).ceil() as i64)
}

#[test]
fn slots_of_a_window() {
    assert_eq!(slot_range(-80, 80), (-16, 16));
    assert_eq!(slot_range(0, 0), (-1, 1));
    for s in -3000..3000 {
        assert_eq!(slot_range(s - 80, s + 80), slots_in_floats(s - 80, s + 80));
    }
}

#[test]
fn slots_of_a_window_far_out() {
    let mut rng = Rng::new(11);
    for _ in 0..20_000 {
        let w = (((rng.next() as u64) << 32 | rng.next() as u64) >> (rng.next() % 60)) as i64;
        if w < i64::MAX {
            assert_eq!(slot_range(w, w), slots_in_floats(w, w), "{w}");
        }
    }
    for w in [i64::MIN, i64::MAX - 1, 1 << 24, (1 << 24) + 1, 16_777_219, -16_777_217, 44_739_258] {
        assert_eq!(slot_range(w, w), slots_in_floats(w, w), "{w}");
    }
}

#[test]
fn slots_cover_the_jitter() {
    for s in -500i64..500 {
        let (first, last) = slot_range(s - 80, s + 80);
        for k in first - 20..last + 20 {
            for draw in [0u32, 1, 8_388_608, 16_777_215] {
                let x = (16 * k - 3) as f64 + 6.0 * draw as f64 / 16_777_216.0;
                if (3 * (s - 80)) as f64 <= x && x <= (3 * (s + 81)) as f64 {
                    assert!(first <= k && k <= last);
                }
            }
        }
    }
}

fn segment_in_floats(x: f32) -> i64 {
    (x / 3.0).floor() as i64
}

#[test]
fn segment_below_the_ship() {
    assert_eq!(ship_segment(0.0f32.to_bits()), 0);
    assert_eq!(ship_segment(2.9f32.to_bits()), 0);
    assert_eq!(ship_segment(3.0f32.to_bits()), 1);
    assert_eq!(ship_segment((-0.1f32).to_bits()), -1);
    assert_eq!(ship_segment((-3.0f32).to_bits()), -1);
    assert_eq!(ship_segment((-3.1f32).to_bits()), -2);
    assert_eq!(ship_segment(f32::NAN.to_bits()), 0);
    assert_eq!(ship_segment(f32::INFINITY.to_bits()), i64::MAX);
    assert_eq!(ship_segment(f32::NEG_INFINITY.to_bits()), i64::MIN);
    assert_eq!(ship_segment(0x8000_0001), 0);
    assert_eq!(ship_segment(0x8000_0002), -1);
    for &w in &words() {
        assert_eq!(ship_segment(w), segment_in_floats(f32::from_bits(w)), "{w:x}");
    }
}

#[test]
fn segment_below_the_ship_everywhere() {
    let mut rng = Rng::new(5);
    for _ in 0..200_000 {
        let w = rng.next();
        assert_eq!(ship_segment(w), segment_in_floats(f32::from_bits(w)), "{w:x}");
        let near = (rng.next() as i32 >> (rng.next() % 24)) as f32 * 0.25;
        assert_eq!(ship_segment(near.to_bits()), segment_in_floats(near), "{near}");
    }
}

#[test]
fn ship_is_over_its_segment() {
    for i in -20_000i32..20_000 {
        let x = i as f32 * 0.37;
        let s = ship_segment(x.to_bits()) as f64;
        assert!(3.0 * s <= x as f64 && (x as f64) < 3.0 * (s + 1.0));
    }
}

#[test]
fn scale_of_the_view() {
    assert_eq!(view_scale(599.9f32.to_bits()), (80.0f32 * 0.38).to_bits());
    assert_eq!(view_scale(600.0f32.to_bits()), 80.0f32.to_bits());
    assert_eq!(view_scale(f32::NAN.to_bits()), 80.0f32.to_bits());
}

#[test]
fn hulls_off_screen() {
    let margin = 100.0f32;
    let sw = 800.0f32;
    let nan = f32::NAN;
    for xs in [
        vec![], vec![nan], vec![-101.0, -150.0], vec![-101.0, -99.0], vec![901.0, 950.0], vec![901.0, nan],
        vec![899.0, 950.0], vec![-100.0], vec![900.0], vec![f32::INFINITY], vec![f32::NEG_INFINITY, nan],
        vec![-200.0, 1000.0], vec![10.0, 20.0, 30.0],
    ] {
        let (mut minx, mut maxx) = (f32::INFINITY, f32::NEG_INFINITY);
        for &x in &xs {
            minx = minx.min(x);
            maxx = maxx.max(x);
        }
        for (low, high) in [(-margin, sw + margin), (nan, nan), (f32::NEG_INFINITY, f32::INFINITY)] {
            let expected = maxx < low || minx > high;
            let ws: Vec<u32> = xs.iter().map(|x| x.to_bits()).collect();
            assert_eq!(hull_off_screen(&ws, low.to_bits(), high.to_bits()), expected, "{xs:?} {low} {high}");
        }
    }
}

#[test]
fn walls_off_screen() {
    let nan = f32::NAN;
    let all = [nan, f32::NEG_INFINITY, -101.0, -100.0, 0.0, 900.0, 901.0, f32::INFINITY];
    for a in all {
        for b in all {
            for (low, high) in [(-100.0f32, 900.0f32), (nan, nan), (f32::NEG_INFINITY, f32::INFINITY)] {
                let expected = a.min(b) > high || a.max(b) < low;
                let r = wall_off_screen(a.to_bits(), b.to_bits(), low.to_bits(), high.to_bits());
                assert_eq!(r, expected, "{a} {b} {low} {high}");
            }
        }
    }
}

#[test]
fn minimap_reach() {
    assert!(!off_minimap(156.0f32.to_bits()));
    assert!(off_minimap(156.1f32.to_bits()));
    assert!(off_minimap((-157.0f32).to_bits()));
    assert!(!off_minimap((-12.0f32).to_bits()));
    assert!(!off_minimap(f32::NAN.to_bits()));
}

fn ends_in_floats(idx: i64) -> (f32, f32) {
    let x0 = idx as f32 * 3.0;
    (x0, x0 + 3.0)
}

#[test]
fn ends_of_segments() {
    assert_eq!(seg_ends(0), (0.0f32.to_bits(), 3.0f32.to_bits()));
    assert_eq!(seg_ends(-1), ((-3.0f32).to_bits(), 0.0f32.to_bits()));
    assert_eq!(seg_ends(80), (240.0f32.to_bits(), 243.0f32.to_bits()));
    let mut rng = Rng::new(13);
    for i in 0..20_000i64 {
        let far = (((rng.next() as u64) << 32 | rng.next() as u64) as i64) >> (rng.next() % 60);
        for idx in [i - 10_000, far] {
            let (x0, x1) = ends_in_floats(idx);
            assert_eq!(seg_ends(idx), (x0.to_bits(), x1.to_bits()), "{idx}");
        }
    }
    for idx in [i64::MIN, i64::MAX, 5_592_405, 5_592_407, -5_592_409] {
        let (x0, x1) = ends_in_floats(idx);
        assert_eq!(seg_ends(idx), (x0.to_bits(), x1.to_bits()), "{idx}");
    }
}

#[test]
fn segments_meet() {
    for idx in -2000..2000 {
        assert_eq!(seg_ends(idx).1, seg_ends(idx + 1).0);
    }
}

#[test]
fn segments_repeat() {
    for idx in -2000..2000 {
        let (near, far) = (seg_ends(idx), seg_ends(idx + 200));
        assert_eq!(f32::from_bits(far.0), f32::from_bits(near.0) + 600.0);
        assert_eq!(f32::from_bits(far.1), f32::from_bits(near.1) + 600.0);
    }
}

fn place_in_floats(k: i64) -> f32 {
    let mut rng = Rng::new(k as u32);
    let unit = (rng.next() >> 8) as f32 / (1u32 << 24) as f32;
    let (a, b) = (-3.0f32, 3.0f32);
    k as f32 * 16.0 + (a + (b - a) * unit)
}

#[test]
fn places_of_obstacles() {
    assert_eq!(obstacle_x(2), 34.044697f32.to_bits());
    let mut rng = Rng::new(17);
    for i in 0..20_000i64 {
        let far = (((rng.next() as u64) << 32 | rng.next() as u64) as i64) >> (rng.next() % 60);
        for k in [i - 10_000, far] {
            assert_eq!(obstacle_x(k), place_in_floats(k).to_bits(), "{k}");
        }
    }
}

#[test]
fn places_are_near_their_slots() {
    for k in -3000i64..3000 {
        let x = f32::from_bits(obstacle_x(k));
        assert!((x - 16.0 * k as f32).abs() <= 3.0);
    }
}

fn check_window(s: i64) {
    let (first, last) = slot_range(s - 80, s + 80);
    for k in first - 5..=last + 5 {
        let x = f32::from_bits(obstacle_x(k)) as f64;
        if (3 * (s - 80)) as f64 <= x && x <= (3 * (s + 81)) as f64 {
            assert!(first <= k && k <= last);
        }
    }
}

#[test]
fn windows_have_their_obstacles() {
    for s in -300i64..300 {
        check_window(s);
        check_window(6_000_000 + s);
        check_window(-20_000_000 + s);
    }
}

#[test]
fn places_are_away_from_the_start() {
    for k in [1i64, -1, 2, 1 << 20, -(1 << 21), 1 << 40, i64::MAX, i64::MIN] {
        assert!(f32::from_bits(obstacle_x(k)).abs() >= 13.0);
    }
}
