use rapier_cave::controls::{
    set_safe_area, set_touch_thrust, set_touch_torque, steer, thrusting_now, Steering, TouchInput,
};
use rapier_cave::mesh::{fan_indices, next_vertex, wall_indices};
use rapier_cave::obstacle::{obstacle_spec, obstacle_x, ObstacleSpec};
use rapier_cave::particles::{emissions, retain_live, Particle};
use rapier_cave::window::window_conf;

fn word(x: f32) -> u32 {
    x.to_bits()
}

#[test]
fn touch_reports() {
    let mut touch = TouchInput::new();
    assert_eq!(touch, TouchInput { thrust: 0, torque: 0, safe_top: 0, safe_left: 0 });
    set_touch_thrust(&mut touch, 1);
    set_touch_torque(&mut touch, word(0.5));
    set_safe_area(&mut touch, word(44.0), word(20.0));
    assert_eq!(
        touch,
        TouchInput { thrust: 1, torque: word(0.5), safe_top: word(44.0), safe_left: word(20.0) }
    );
    set_touch_thrust(&mut touch, -1);
    assert_eq!(touch.thrust, u32::MAX);
    assert_eq!(touch.torque, word(0.5));
}

#[test]
fn thrust_comes_from_any_input() {
    let mut touch = TouchInput::new();
    assert!(!thrusting_now(false, false, &touch));
    assert!(thrusting_now(true, false, &touch));
    assert!(thrusting_now(false, true, &touch));
    set_touch_thrust(&mut touch, -5);
    assert!(thrusting_now(false, false, &touch));
    set_touch_thrust(&mut touch, 0);
    assert!(!thrusting_now(false, false, &touch));
}

#[test]
fn steering_by_keys() {
    let touch = TouchInput::new();
    assert_eq!(
        steer(true, false, &touch),
        Steering { rotating_left: true, rotating_right: false, torque: word(-1.0) }
    );
    assert_eq!(
        steer(false, true, &touch),
        Steering { rotating_left: false, rotating_right: true, torque: word(1.0) }
    );
    assert_eq!(
        steer(true, true, &touch),
        Steering { rotating_left: true, rotating_right: true, torque: word(-1.0) }
    );
    assert_eq!(
        steer(false, false, &touch),
        Steering { rotating_left: false, rotating_right: false, torque: word(0.0) }
    );
}

#[test]
fn steering_by_touch() {
    for x in [-2.0f32, -0.11, -0.1, -0.05, 0.0, 0.05, 0.1, 0.11, 2.0, f32::NAN, f32::INFINITY, f32::NEG_INFINITY] {
        let mut touch = TouchInput::new();
        set_touch_torque(&mut touch, word(x));
        let s = steer(false, false, &touch);
        assert_eq!(s.rotating_left, x < -0.1);
        assert_eq!(s.rotating_right, x > 0.1);
        assert!(!(s.rotating_left && s.rotating_right));
        let torque = if x < -0.1 { -1.0 } else if x > 0.1 { 1.0 } else { x };
        assert_eq!(s.torque, word(torque));
    }
}

#[test]
fn steering_by_key_against_touch() {
    let mut touch = TouchInput::new();
    set_touch_torque(&mut touch, word(0.5));
    let s = steer(true, false, &touch);
    assert_eq!(s, Steering { rotating_left: true, rotating_right: true, torque: word(-1.0) });
}

#[test]
fn exhaust() {
    assert!(emissions(false, false, false).is_empty());
    assert_eq!(emissions(true, false, false), vec![0; 8]);
    assert_eq!(emissions(false, true, false), vec![1, 1, 1]);
    assert_eq!(emissions(false, false, true), vec![2, 2, 2]);
    assert_eq!(emissions(true, true, true), vec![0, 0, 0, 0, 0, 0, 0, 0, 1, 1, 1, 2, 2, 2]);
}

fn particle(life: f32, kind: u8) -> Particle {
    Particle { x: word(1.0), y: word(2.0), vx: 0, vy: 0, life: word(life), kind }
}

#[test]
fn live_particles_stay_in_order() {
    let mut ps = vec![
        particle(1.0, 0),
        particle(0.0, 0),
        particle(0.5, 1),
        particle(-0.1, 1),
        particle(f32::NAN, 2),
        particle(1e-40, 2),
        particle(-0.0, 2),
    ];
    retain_live(&mut ps);
    assert_eq!(ps, vec![particle(1.0, 0), particle(0.5, 1), particle(1e-40, 2)]);
    let before = ps.clone();
    retain_live(&mut ps);
    assert_eq!(ps, before);
}

#[test]
fn indices_of_a_wall() {
    assert_eq!(wall_indices(), vec![0, 1, 2, 0, 2, 3, 4, 5, 6, 4, 6, 7, 8, 9, 10, 8, 10, 11]);
}

#[test]
fn indices_of_a_fan() {
    assert_eq!(fan_indices(0), Vec::<u16>::new());
    assert_eq!(fan_indices(1), vec![0, 1, 1]);
    assert_eq!(fan_indices(4), vec![0, 1, 2, 0, 2, 3, 0, 3, 4, 0, 4, 1]);
    let full = fan_indices(65_535);
    assert_eq!(full.len(), 3 * 65_535);
    assert_eq!(&full[full.len() - 3..], &[0, 65_535, 1]);
    assert_eq!(fan_indices(65_536), Vec::<u16>::new());
    assert_eq!(fan_indices(65_539), fan_indices(3));
}

#[test]
fn fan_closes() {
    for n in 3..10usize {
        let ix = fan_indices(n);
        for t in 0..n {
            assert_eq!(ix[3 * t + 2], ix[3 * ((t + 1) % n) + 1]);
        }
    }
}

#[test]
fn rim_of_a_polygon() {
    assert_eq!(next_vertex(0, 1), 0);
    assert_eq!(next_vertex(0, 3), 1);
    assert_eq!(next_vertex(2, 3), 0);
    assert_eq!(next_vertex(usize::MAX - 1, usize::MAX), 0);
}

#[test]
fn window_of_the_game() {
    let conf = window_conf();
    assert_eq!(conf.title, "Rapier 2D — Cave");
    assert_eq!((conf.width, conf.height), (1440, 900));
    assert!(!conf.high_dpi);
    assert!(conf.webgl2);
}

#[test]
fn places_of_slots() {
    assert_eq!(obstacle_x(2), word(2.0 * 16.0 + (-3.0 + 6.0 * (14_105_991.0 / 16_777_216.0))));
    assert_eq!(obstacle_x(-1), word(-16.0 + (-3.0 + 6.0 * (12_347_192.0 / 16_777_216.0))));
}

#[test]
fn obstacle_of_a_slot() {
    let spec = ObstacleSpec {
        radius: 11_787_103,
        offset: 7_536_316,
        pts: vec![
            (66_048, 16_340_541),
            (4_327_068, 7_409_131),
            (6_562_503, 16_686_474),
            (9_486_793, 16_508_664),
            (7_108_323, 7_495_456),
            (12_406_135, 1_390_994),
        ],
        rot: 7_012_497,
    };
    assert_eq!(obstacle_spec(2, word(8.0)), Some(spec));
    let far = obstacle_spec(-1, word(4.5)).unwrap();
    assert_eq!(far.radius, 16_442_505);
    assert_eq!(far.offset, 14_666_644);
    assert_eq!(far.pts.len(), 9);
    assert_eq!(far.pts[8], (3_230_546, 2_545_524));
    assert_eq!(far.rot, 5_275_936);
}

#[test]
fn no_obstacle_near_the_start() {
    for hw in [4.5f32, 8.0, 100.0, f32::NAN] {
        assert_eq!(obstacle_spec(0, word(hw)), None);
    }
    for k in -200..200 {
        if obstacle_spec(k, word(8.0)).is_some() {
            assert!(f32::from_bits(obstacle_x(k)).abs() >= 9.0);
        }
    }
}

#[test]
fn no_obstacle_at_a_pinch_point() {
    assert_eq!(obstacle_spec(2, word(4.49)), None);
    assert_eq!(obstacle_spec(2, word(-1.0)), None);
    assert!(obstacle_spec(2, word(4.5)).is_some());
    assert!(obstacle_spec(2, word(f32::NAN)).is_some());
}

#[test]
fn some_slots_are_left_empty() {
    for k in [1, 3] {
        assert_eq!(obstacle_spec(k, word(8.0)), None);
    }
}

#[test]
fn obstacles_are_fixed() {
    for k in -200..200 {
        let a = obstacle_spec(k, word(8.0));
        assert_eq!(a, obstacle_spec(k, word(8.0)));
        if let Some(o) = a {
            assert!((6..=9).contains(&o.pts.len()));
        }
    }
}
