use nbody::geometry::PointKey;
use nbody::geometry::Velocity;
use nbody::velocity_map::VelocityMap;

fn point(x: f64, y: f64, mass: f64) -> PointKey {
    PointKey { x: x.to_bits(), y: y.to_bits(), mass: mass.to_bits() }
}

fn velocity(x: f64, y: f64) -> Velocity {
    Velocity { x: x.to_bits(), y: y.to_bits() }
}

#[test]
fn new_map_holds_nothing() {
    let map = VelocityMap::new();
    assert!(!map.contains_key(&point(1.0, 2.0, 3.0)));
    assert_eq!(map.get(&point(1.0, 2.0, 3.0)), None);
}

#[test]
fn inserted_velocity_is_found_at_its_position() {
    let mut map = VelocityMap::new();
    map.insert(point(100.0, 100.0, 1.0), velocity(1.0, 0.0));
    map.insert(point(100.6, 100.0, 1.0), velocity(-1.0, 0.0));
    assert_eq!(map.get(&point(100.0, 100.0, 1.0)), Some(velocity(1.0, 0.0)));
    assert_eq!(map.get(&point(100.6, 100.0, 1.0)), Some(velocity(-1.0, 0.0)));
    assert!(map.contains_key(&point(100.6, 100.0, 1.0)));
    assert!(!map.contains_key(&point(100.6, 100.0, 2.0)));
}

#[test]
fn positions_are_keys_by_their_bits() {
    let mut map = VelocityMap::new();
    map.insert(point(0.0, 0.0, 1.0), velocity(1.0, 1.0));
    assert!(!map.contains_key(&point(-0.0, 0.0, 1.0)));
    map.insert(point(f64::NAN, 0.0, 1.0), velocity(2.0, 2.0));
    assert_eq!(map.get(&point(f64::NAN, 0.0, 1.0)), Some(velocity(2.0, 2.0)));
}

#[test]
fn later_velocity_replaces_earlier_at_one_position() {
    let mut map = VelocityMap::new();
    map.insert(point(1.0, 1.0, 1.0), velocity(1.0, 0.0));
    map.insert(point(1.0, 1.0, 1.0), velocity(0.0, 1.0));
    assert_eq!(map.get(&point(1.0, 1.0, 1.0)), Some(velocity(0.0, 1.0)));
}

#[test]
fn clear_forgets_everything() {
    let mut map = VelocityMap::new();
    map.insert(point(1.0, 1.0, 1.0), velocity(1.0, 0.0));
    map.clear();
    assert!(!map.contains_key(&point(1.0, 1.0, 1.0)));
    assert_eq!(map.get(&point(1.0, 1.0, 1.0)), None);
}

#[test]
fn snapshot_replaces_the_last_step() {
    let mut map = VelocityMap::new();
    map.insert(point(9.0, 9.0, 9.0), velocity(9.0, 9.0));
    let bodies = vec![
        (point(90.0, 100.0, 1.0), velocity(0.0, 0.0)),
        (point(110.0, 100.0, 1.0), velocity(0.5, 0.0)),
        (point(90.0, 100.0, 1.0), velocity(2.0, 0.0)),
    ];
    map.snapshot(&bodies);
    assert!(!map.contains_key(&point(9.0, 9.0, 9.0)));
    for body in &bodies {
        assert!(map.contains_key(&body.0));
    }
    assert_eq!(map.get(&point(90.0, 100.0, 1.0)), Some(velocity(2.0, 0.0)));
    assert_eq!(map.get(&point(110.0, 100.0, 1.0)), Some(velocity(0.5, 0.0)));
}
