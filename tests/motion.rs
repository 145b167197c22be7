use agarlib::motion::{floor_sqrt_of, move_agar, move_ball};
use agarlib::{input_to_velocity, Point, Vec2};

#[test]
fn pointer_at_centre_gives_no_velocity() {
    assert_eq!(input_to_velocity(&Vec2 { x: 500000, y: 500000 }, 550000), Point { x: 0, y: 0 });
}

#[test]
fn short_input_is_halved() {
    assert_eq!(
        input_to_velocity(&Vec2 { x: 600000, y: 400000 }, 550000),
        Point { x: 50000, y: -50000 }
    );
    assert_eq!(input_to_velocity(&Vec2 { x: 1000000, y: 500000 }, 550000), Point { x: 250000, y: 0 });
}

#[test]
fn long_input_is_scaled_to_the_limit() {
    assert_eq!(
        input_to_velocity(&Vec2 { x: 900000, y: 800000 }, 100000),
        Point { x: 80000, y: 60000 }
    );
    assert_eq!(input_to_velocity(&Vec2 { x: 0, y: 0 }, 300000), Point { x: -212131, y: -212131 });
}

#[test]
fn zero_limit_stops_the_agar() {
    assert_eq!(input_to_velocity(&Vec2 { x: 700000, y: 100000 }, 0), Point { x: 0, y: 0 });
}

#[test]
fn square_root_values() {
    assert_eq!(floor_sqrt_of(0), 0);
    assert_eq!(floor_sqrt_of(15), 3);
    assert_eq!(floor_sqrt_of(16), 4);
    assert_eq!(floor_sqrt_of(250_000_000_000), 500000);
}

#[test]
fn agar_is_clamped_at_the_world_edge() {
    let p = move_agar(Point { x: 1999000, y: 5 }, Point { x: 550000, y: 0 }, 33);
    assert_eq!(p, Point { x: 2000000, y: 5 });
    let q = move_agar(Point { x: 1000, y: 1000 }, Point { x: -550000, y: -550000 }, 33);
    assert_eq!(q, Point { x: 0, y: 0 });
}

#[test]
fn agar_moves_by_velocity_times_tick() {
    let p = move_agar(Point { x: 1000000, y: 1000000 }, Point { x: 300000, y: -1001 }, 33);
    assert_eq!(p, Point { x: 1009900, y: 999967 });
}

#[test]
fn ball_wraps_around_the_board() {
    let p = move_ball(Point { x: 1999000, y: 0 }, Point { x: 550000, y: 0 }, 33, 2000000, 2000000);
    assert_eq!(p, Point { x: 17150, y: 0 });
    let q = move_ball(Point { x: 1000, y: 0 }, Point { x: -550000, y: 0 }, 33, 2000000, 2000000);
    assert_eq!(q, Point { x: 1982850, y: 0 });
    let r = move_ball(Point { x: 0, y: 0 }, Point { x: -2000000, y: 0 }, 1000, 2000000, 2000000);
    assert_eq!(r, Point { x: 0, y: 0 });
}
