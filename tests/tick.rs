use boids::{Boids, Fault, Task};
use std::sync::Arc;

type Sim = Boids<(i64, i64), u32>;

fn sample() -> Sim {
    let mut sim = Sim::new();
    assert_eq!(sim.register_flock(10, 7), Ok(()));
    assert_eq!(sim.register_flock(20, 9), Ok(()));
    assert_eq!(sim.register_boid(10, 1, (0, 0)), Ok(()));
    assert_eq!(sim.register_boid(20, 2, (5, 5)), Ok(()));
    assert_eq!(sim.register_boid(10, 3, (1, 2)), Ok(()));
    sim
}

fn add(s: (i64, i64), f: (i64, i64)) -> (i64, i64) {
    (s.0 + f.0, s.1 + f.1)
}

/// A stand-in force: the sum of the other members' states minus the own one.
fn pull(t: &Task<(i64, i64), u32>) -> (i64, i64) {
    let mut sx: i64 = 0;
    let mut sy: i64 = 0;
    for s in t.snapshot.iter() {
        sx += s.0;
        sy += s.1;
    }
    (sx - 2 * t.state.0, sy - 2 * t.state.1)
}

#[test]
fn plan_has_one_task_per_member_in_order() {
    let sim = sample();
    let plan = sim.plan();
    assert_eq!(plan.len(), 2);
    assert_eq!(plan[0].len(), 2);
    assert_eq!(plan[1].len(), 1);
    assert_eq!(plan[0][0].boid, 1);
    assert_eq!(plan[0][1].boid, 3);
    assert_eq!(plan[1][0].boid, 2);
    assert_eq!(plan[0][1].state, (1, 2));
    assert_eq!(plan[0][0].config, 7);
    assert_eq!(plan[1][0].config, 9);
}

#[test]
fn plan_shares_one_snapshot_per_flock() {
    let sim = sample();
    let plan = sim.plan();
    assert_eq!(plan[0][0].snapshot.as_slice(), &[(0, 0), (1, 2)]);
    assert!(Arc::ptr_eq(&plan[0][0].snapshot, &plan[0][1].snapshot));
    assert_eq!(plan[1][0].snapshot.as_slice(), &[(5, 5)]);
}

#[test]
fn empty_flock_contributes_no_tasks() {
    let mut sim = sample();
    assert_eq!(sim.register_flock(30, 1), Ok(()));
    let plan = sim.plan();
    assert_eq!(plan.len(), 3);
    assert!(plan[2].is_empty());
}

#[test]
fn apply_forces_changes_each_named_boid_once() {
    let mut sim = sample();
    let forces: Vec<(u64, (i64, i64))> = vec![(3, (1, 1)), (1, (2, 0))];
    assert_eq!(sim.apply_forces(&forces, add), Ok(()));
    assert_eq!(sim.get_state(1), Some((2, 0)));
    assert_eq!(sim.get_state(3), Some((2, 3)));
    assert_eq!(sim.get_state(2), Some((5, 5)));
}

#[test]
fn apply_forces_unknown_boid_applies_nothing() {
    let mut sim = sample();
    let forces: Vec<(u64, (i64, i64))> = vec![(1, (2, 0)), (42, (1, 1))];
    assert_eq!(sim.apply_forces(&forces, add), Err(Fault::UnknownBoid(42)));
    assert_eq!(sim.get_state(1), Some((0, 0)));
}

#[test]
fn apply_forces_repeated_boid_applies_nothing() {
    let mut sim = sample();
    let forces: Vec<(u64, (i64, i64))> = vec![(1, (2, 0)), (2, (1, 1)), (1, (1, 1))];
    assert_eq!(sim.apply_forces(&forces, add), Err(Fault::RepeatedForce(1)));
    assert_eq!(sim.get_state(1), Some((0, 0)));
    assert_eq!(sim.get_state(2), Some((5, 5)));
}

#[test]
fn apply_forces_reports_the_first_fault() {
    let mut sim = sample();
    let forces: Vec<(u64, (i64, i64))> = vec![(2, (0, 0)), (2, (0, 0)), (77, (0, 0))];
    assert_eq!(sim.apply_forces(&forces, add), Err(Fault::RepeatedForce(2)));
}

#[test]
fn process_sequential_gives_every_boid_one_force() {
    let mut sim = sample();
    let forces = sim.process_sequential(pull, add);
    assert_eq!(forces, vec![(1, (1, 2)), (3, (-1, -2)), (2, (-5, -5))]);
    assert_eq!(sim.get_state(1), Some((1, 2)));
    assert_eq!(sim.get_state(3), Some((0, 0)));
    assert_eq!(sim.get_state(2), Some((0, 0)));
}

#[test]
fn forces_read_the_frozen_snapshot() {
    let mut sim = sample();
    let forces = sim.process_sequential(pull, add);
    // the second member of flock 10 saw the first one before it moved
    assert_eq!(forces[1], (3, (0 + 1 - 2, 0 + 2 - 4)));
}

#[test]
fn order_of_forces_does_not_change_the_outcome() {
    let mut a = sample();
    let mut b = sample();
    let f1: Vec<(u64, (i64, i64))> = vec![(1, (1, 0)), (2, (0, 1)), (3, (2, 2))];
    let f2: Vec<(u64, (i64, i64))> = vec![(3, (2, 2)), (1, (1, 0)), (2, (0, 1))];
    assert_eq!(a.apply_forces(&f1, add), Ok(()));
    assert_eq!(b.apply_forces(&f2, add), Ok(()));
    for id in [1u64, 2, 3] {
        assert_eq!(a.get_state(id), b.get_state(id));
    }
}

#[test]
fn sequential_and_split_ticks_agree() {
    let mut a = sample();
    let mut b = sample();
    let seq_forces = a.process_sequential(pull, add);
    let plan = b.plan();
    let mut par_forces: Vec<(u64, (i64, i64))> = Vec::new();
    for tasks in plan.iter().rev() {
        for t in tasks.iter().rev() {
            par_forces.push((t.boid, pull(t)));
        }
    }
    assert_eq!(b.apply_forces(&par_forces, add), Ok(()));
    let mut s1 = seq_forces.clone();
    let mut s2 = par_forces.clone();
    s1.sort();
    s2.sort();
    assert_eq!(s1, s2);
    for id in [1u64, 2, 3] {
        assert_eq!(a.get_state(id), b.get_state(id));
    }
}

#[test]
fn empty_registry_tick_does_nothing() {
    let mut sim = Sim::new();
    let forces = sim.process_sequential(pull, add);
    assert!(forces.is_empty());
}

#[test]
fn planning_twice_gives_the_same_inputs() {
    let sim = sample();
    let p1 = sim.plan();
    let p2 = sim.plan();
    assert_eq!(p1.len(), p2.len());
    for (g1, g2) in p1.iter().zip(p2.iter()) {
        assert_eq!(g1.len(), g2.len());
        for (t1, t2) in g1.iter().zip(g2.iter()) {
            assert_eq!(t1.boid, t2.boid);
            assert_eq!(t1.state, t2.state);
            assert_eq!(t1.config, t2.config);
            assert_eq!(t1.snapshot, t2.snapshot);
        }
    }
}
