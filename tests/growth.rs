use agarlib::growth::fifth_root_of;
use agarlib::{max_velocity, Agar, Vec2};

#[test]
fn speed_limit_formula_values() {
    assert_eq!(max_velocity(15000), 550000);
    assert_eq!(max_velocity(16000), 300000);
    assert_eq!(max_velocity(17000), 232415);
    assert_eq!(max_velocity(20000), 158154);
    assert_eq!(max_velocity(115000), 62251);
    assert_eq!(max_velocity(1_000_000_000_000), 50049);
}

#[test]
fn speed_limit_below_initial_size() {
    assert_eq!(max_velocity(0), 1050000);
    assert_eq!(max_velocity(5000), 883333);
    assert_eq!(max_velocity(6000), 850000);
    assert_eq!(max_velocity(14999), 550033);
    assert!(max_velocity(6000) < max_velocity(5000));
    assert_eq!(max_velocity(u64::MAX), max_velocity(15000 + 100_000_000));
}

#[test]
fn fifth_root_values() {
    assert_eq!(fifth_root_of(0), 0);
    assert_eq!(fifth_root_of(31), 1);
    assert_eq!(fifth_root_of(32), 2);
    assert_eq!(fifth_root_of(100_000), 10);
    assert_eq!(fifth_root_of(99_999), 9);
}

#[test]
fn new_agar_starts_at_initial_size() {
    let a = Agar::new();
    assert_eq!(a.size, 15000);
    assert_eq!(a.velocity, Vec2 { x: 0, y: 0 });
    assert_eq!(a.max_velocity, 550000);
}

#[test]
fn growth_is_monotonic_and_speed_follows_size() {
    let mut a = Agar::new();
    let mut last_size = a.size;
    let mut last_speed = a.max_velocity;
    for amount in [1000u64, 0, 2500, 1000, 40000] {
        a.grow(amount);
        assert!(a.size >= last_size);
        assert!(a.max_velocity <= last_speed);
        assert_eq!(a.max_velocity, max_velocity(a.size));
        last_size = a.size;
        last_speed = a.max_velocity;
    }
    assert_eq!(a.size, 15000 + 44500);
}

#[test]
fn growth_saturates_at_the_largest_size() {
    let mut a = Agar::new();
    a.grow(u64::MAX);
    assert_eq!(a.size, u64::MAX);
    assert_eq!(a.max_velocity, max_velocity(u64::MAX));
}
