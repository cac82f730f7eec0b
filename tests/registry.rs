use boids::{Boids, Fault};

type Sim = Boids<(i64, i64), u32>;

fn sample() -> Sim {
    let mut sim = Sim::new();
    assert_eq!(sim.register_flock(10, 7), Ok(()));
    assert_eq!(sim.register_flock(20, 9), Ok(()));
    assert_eq!(sim.register_boid(10, 1, (0, 0)), Ok(()));
    assert_eq!(sim.register_boid(20, 2, (5, 5)), Ok(()));
    assert_eq!(sim.register_boid(10, 3, (1, 2)), Ok(()));
    sim
}

#[test]
fn new_registry_is_empty() {
    let sim = Sim::new();
    assert_eq!(sim.boid_count(), 0);
    assert_eq!(sim.flock_count(), 0);
    assert!(sim.plan().is_empty());
}

#[test]
fn counts_follow_registration() {
    let sim = sample();
    assert_eq!(sim.boid_count(), 3);
    assert_eq!(sim.flock_count(), 2);
}

#[test]
fn duplicate_flock_is_refused() {
    let mut sim = sample();
    assert_eq!(sim.register_flock(10, 1), Err(Fault::DuplicateFlock(10)));
    assert_eq!(sim.flock_count(), 2);
    let plan = sim.plan();
    assert_eq!(plan[0][0].config, 7);
}

#[test]
fn boid_in_unknown_flock_is_refused() {
    let mut sim = sample();
    assert_eq!(sim.register_boid(99, 4, (0, 0)), Err(Fault::UnknownFlock(99)));
    assert_eq!(sim.boid_count(), 3);
    assert_eq!(sim.get_flock_id(4), None);
}

#[test]
fn duplicate_boid_is_refused() {
    let mut sim = sample();
    assert_eq!(sim.register_boid(20, 1, (8, 8)), Err(Fault::DuplicateBoid(1)));
    assert_eq!(sim.get_flock_id(1), Some(10));
    assert_eq!(sim.get_state(1), Some((0, 0)));
}

#[test]
fn unknown_flock_wins_over_duplicate_boid() {
    let mut sim = sample();
    assert_eq!(sim.register_boid(99, 1, (0, 0)), Err(Fault::UnknownFlock(99)));
}

#[test]
fn getters_find_registered_boids() {
    let sim = sample();
    assert_eq!(sim.get_flock_id(2), Some(20));
    assert_eq!(sim.get_flock_id(3), Some(10));
    assert_eq!(sim.get_state(3), Some((1, 2)));
    assert_eq!(sim.get_state(2), Some((5, 5)));
    assert_eq!(sim.get_state(42), None);
}

#[test]
fn unregister_unknown_boid_is_a_fault() {
    let mut sim = sample();
    assert_eq!(sim.unregister_boid(42), Err(Fault::UnknownBoid(42)));
    assert_eq!(sim.boid_count(), 3);
}

#[test]
fn unregister_boid_keeps_order_of_the_rest() {
    let mut sim = sample();
    assert_eq!(sim.register_boid(10, 4, (3, 3)), Ok(()));
    assert_eq!(sim.unregister_boid(1), Ok(()));
    assert_eq!(sim.boid_count(), 3);
    assert_eq!(sim.get_state(1), None);
    assert_eq!(sim.get_state(4), Some((3, 3)));
    let plan = sim.plan();
    let ids: Vec<u64> = plan[0].iter().map(|t| t.boid).collect();
    assert_eq!(ids, vec![3, 4]);
    assert_eq!(plan[0][0].snapshot.as_slice(), &[(1, 2), (3, 3)]);
}

#[test]
fn unregister_flock_takes_its_boids() {
    let mut sim = sample();
    assert_eq!(sim.unregister_flock(10), Ok(()));
    assert_eq!(sim.flock_count(), 1);
    assert_eq!(sim.boid_count(), 1);
    assert_eq!(sim.get_state(1), None);
    assert_eq!(sim.get_state(3), None);
    assert_eq!(sim.get_flock_id(2), Some(20));
    assert_eq!(sim.unregister_flock(10), Err(Fault::UnknownFlock(10)));
    assert_eq!(sim.register_boid(10, 5, (0, 0)), Err(Fault::UnknownFlock(10)));
}

#[test]
fn reregistered_flock_goes_last() {
    let mut sim = sample();
    assert_eq!(sim.unregister_flock(10), Ok(()));
    assert_eq!(sim.register_flock(10, 3), Ok(()));
    assert_eq!(sim.register_boid(10, 1, (4, 4)), Ok(()));
    let plan = sim.plan();
    assert_eq!(plan.len(), 2);
    assert_eq!(plan[0][0].boid, 2);
    assert_eq!(plan[1][0].boid, 1);
    assert_eq!(plan[1][0].config, 3);
}

#[test]
fn set_state_replaces_one_boid() {
    let mut sim = sample();
    assert_eq!(sim.set_state(3, (9, 9)), Ok(()));
    assert_eq!(sim.get_state(3), Some((9, 9)));
    assert_eq!(sim.get_state(1), Some((0, 0)));
    assert_eq!(sim.get_flock_id(3), Some(10));
    assert_eq!(sim.set_state(42, (1, 1)), Err(Fault::UnknownBoid(42)));
}
