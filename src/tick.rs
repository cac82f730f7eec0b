//! One tick: planning per-boid tasks over frozen flock snapshots, and
//! applying the computed forces afterwards.
use crate::seqs::{ids_distinct, lemma_filter_ids_distinct, lemma_filter_take_step};
use crate::table::{key_at, map_entries, map_index_of, map_entry_at, map_len, set_item_at, set_items, set_len};
use crate::world::{Fault, Boids};
use std::sync::Arc;
use vstd::prelude::*;

verus! {

/// The inputs of one boid's force computation in a tick.
pub struct Task<S, G> {
    /// The boid the force is for.
    pub boid: u64,
    /// The boid's own state, copied.
    pub state: S,
    /// The configuration of the boid's flock, copied.
    pub config: G,
    /// The states of all members of the flock, shared by the flock's tasks.
    pub snapshot: Arc<Vec<S>>,
}

/// Relies on `Arc::clone`: the new handle points to the same value.
#[verifier::external_body]
fn share<T>(a: &Arc<T>) -> (r: Arc<T>)
    ensures
        r == *a,
{
    Arc::clone(a)
}

/// Whether a boid row, as (id, flock id, state), belongs to flock `g`.
pub open spec fn in_flock<S>(g: u64) -> spec_fn((u64, u64, S)) -> bool {
    |a: (u64, u64, S)| a.1 == g
}

/// Some force of `forces`, a list of (boid id, force), is for boid `id`.
pub open spec fn has_force<V>(forces: Seq<(u64, V)>, id: u64) -> bool {
    exists|i: int| 0 <= i < forces.len() && forces[i].0 == id
}

/// `after` is `before` with each boid that some force is for changed by
/// `apply` with that force, and every other boid unchanged.
pub open spec fn applied<S, V, F: Fn(S, V) -> S>(
    before: Seq<(u64, u64, S)>,
    after: Seq<(u64, u64, S)>,
    forces: Seq<(u64, V)>,
    apply: F,
) -> bool {
    &&& after.len() == before.len()
    &&& forall|k: int|
        0 <= k < before.len() ==> {
            &&& (#[trigger] after[k]).0 == before[k].0
            &&& after[k].1 == before[k].1
            &&& has_force(forces, before[k].0) ==> (exists|i: int|
                0 <= i < forces.len() && forces[i].0 == before[k].0 && apply.ensures(
                    (before[k].2, forces[i].1),
                    after[k].2,
                ))
            &&& !has_force(forces, before[k].0) ==> after[k].2 == before[k].2
        }
}

/// The `k`-th task of the `a`-th flock of `plan` comes before the `x`-th
/// task of the `gi`-th flock.
pub open spec fn task_before<S, G>(plan: Seq<Vec<Task<S, G>>>, a: int, k: int, gi: int, x: int) -> bool {
    0 <= a <= gi && a < plan.len() && 0 <= k < plan[a]@.len() && (a < gi || k < x)
}

/// `v` is a result that `compute` may return on `t`.
pub open spec fn computes<S, G, V, C: Fn(&Task<S, G>) -> V>(compute: C, t: Task<S, G>, v: V) -> bool {
    compute.ensures((&t,), v)
}

/// The `i`-th of `forces` is the result of `compute` on a task of `plan`
/// before the `x`-th task of the `gi`-th flock.
pub open spec fn made_at<S, G, V, C: Fn(&Task<S, G>) -> V>(
    plan: Seq<Vec<Task<S, G>>>,
    forces: Seq<(u64, V)>,
    compute: C,
    gi: int,
    x: int,
    i: int,
) -> bool {
    exists|a: int, k: int|
        task_before(plan, a, k, gi, x) && forces[i].0 == plan[a]@[k].boid && computes(
            compute,
            #[trigger] plan[a]@[k],
            forces[i].1,
        )
}

/// Each of `forces` is the result of `compute` on a task of `plan` before
/// the `x`-th task of the `gi`-th flock.
#[verifier::opaque]
pub open spec fn made_by<S, G, V, C: Fn(&Task<S, G>) -> V>(
    plan: Seq<Vec<Task<S, G>>>,
    forces: Seq<(u64, V)>,
    compute: C,
    gi: int,
    x: int,
) -> bool {
    forall|i: int| 0 <= i < forces.len() ==> #[trigger] made_at(plan, forces, compute, gi, x, i)
}

/// Some force of `forces` is for the boid of the `k`-th task of the `a`-th
/// flock of `plan`.
pub open spec fn covered<S, G, V>(plan: Seq<Vec<Task<S, G>>>, forces: Seq<(u64, V)>, a: int, k: int) -> bool {
    exists|i: int| 0 <= i < forces.len() && #[trigger] forces[i].0 == plan[a]@[k].boid
}

/// Each task of `plan` before the `x`-th task of the `gi`-th flock has a
/// force in `forces`.
#[verifier::opaque]
pub open spec fn covers<S, G, V>(plan: Seq<Vec<Task<S, G>>>, forces: Seq<(u64, V)>, gi: int, x: int) -> bool {
    forall|a: int, k: int| task_before(plan, a, k, gi, x) ==> #[trigger] covered(plan, forces, a, k)
}

/// No two of `forces` are for the same boid.
pub open spec fn forces_distinct<V>(forces: Seq<(u64, V)>) -> bool {
    forall|a: int, b: int| 0 <= a < b < forces.len() ==> forces[a].0 != forces[b].0
}

/// Distinct boids, stated over the pairs that `forces` holds.
proof fn lemma_forces_distinct_iff<V>(forces: Seq<(u64, V)>)
    ensures
        forces_distinct(forces) <==> forces.no_duplicates() && forall|x: (u64, V), y: (u64, V)|
            forces.contains(x) && forces.contains(y) && x.0 == y.0 ==> x == y,
{
    if forces_distinct(forces) {
        assert forall|x: (u64, V), y: (u64, V)|
            forces.contains(x) && forces.contains(y) && x.0 == y.0 implies x == y by {
            let i = choose|i: int| 0 <= i < forces.len() && forces[i] == x;
            let j = choose|j: int| 0 <= j < forces.len() && forces[j] == y;
            if i < j {
                assert(forces[i].0 != forces[j].0);
            } else if j < i {
                assert(forces[j].0 != forces[i].0);
            }
        }
    }
    if forces.no_duplicates() && forall|x: (u64, V), y: (u64, V)|
        forces.contains(x) && forces.contains(y) && x.0 == y.0 ==> x == y {
        assert forall|a: int, b: int| 0 <= a < b < forces.len() implies forces[a].0 != forces[b].0 by {
            if forces[a].0 == forces[b].0 {
                assert(forces.contains(forces[a]) && forces.contains(forces[b]));
            }
        }
    }
}

/// Two lists with the same pairs, as many times each, agree on distinctness.
proof fn lemma_forces_distinct_transfer<V>(f1: Seq<(u64, V)>, f2: Seq<(u64, V)>)
    requires
        f1.to_multiset() == f2.to_multiset(),
        forces_distinct(f1),
    ensures
        forces_distinct(f2),
{
    broadcast use vstd::seq_lib::group_to_multiset_ensures;

    lemma_forces_distinct_iff(f1);
    lemma_forces_distinct_iff(f2);
    f1.lemma_multiset_has_no_duplicates();
    f2.lemma_multiset_has_no_duplicates_conv();
    assert forall|x: (u64, V)| f2.contains(x) <==> f1.contains(x) by {
        assert(f2.contains(x) <==> f2.to_multiset().count(x) > 0);
        assert(f1.contains(x) <==> f1.to_multiset().count(x) > 0);
    }
}

/// Whether `after` follows from `before` by `forces` rests on the pairs
/// that `forces` holds alone.
proof fn lemma_applied_transfer<S, V, F: Fn(S, V) -> S>(
    before: Seq<(u64, u64, S)>,
    after: Seq<(u64, u64, S)>,
    f1: Seq<(u64, V)>,
    f2: Seq<(u64, V)>,
    apply: F,
)
    requires
        forall|x: (u64, V)| f2.contains(x) <==> f1.contains(x),
        applied(before, after, f1, apply),
    ensures
        applied(before, after, f2, apply),
{
    assert forall|id: u64| has_force(f1, id) <==> has_force(f2, id) by {
        if has_force(f1, id) {
            let i = choose|i: int| 0 <= i < f1.len() && f1[i].0 == id;
            assert(f1.contains(f1[i]));
            let j = choose|j: int| 0 <= j < f2.len() && f2[j] == f1[i];
        }
        if has_force(f2, id) {
            let i = choose|i: int| 0 <= i < f2.len() && f2[i].0 == id;
            assert(f2.contains(f2[i]));
            let j = choose|j: int| 0 <= j < f1.len() && f1[j] == f2[i];
        }
    }
    assert forall|k: int| 0 <= k < before.len() && has_force(f2, before[k].0) implies exists|i: int|
        0 <= i < f2.len() && f2[i].0 == before[k].0 && apply.ensures(
            (before[k].2, f2[i].1),
            after[k].2,
        ) by {
        let i = choose|i: int|
            0 <= i < f1.len() && f1[i].0 == before[k].0 && apply.ensures(
                (before[k].2, f1[i].1),
                after[k].2,
            );
        assert(f1.contains(f1[i]));
        let j = choose|j: int| 0 <= j < f2.len() && f2[j] == f1[i];
    }
}

proof fn lemma_made_by_push<S, G, V, C: Fn(&Task<S, G>) -> V>(
    plan: Seq<Vec<Task<S, G>>>,
    forces: Seq<(u64, V)>,
    compute: C,
    gi: int,
    x: int,
    v: V,
)
    requires
        made_by(plan, forces, compute, gi, x),
        0 <= gi < plan.len(),
        0 <= x < plan[gi]@.len(),
        computes(compute, plan[gi]@[x], v),
    ensures
        made_by(plan, forces.push((plan[gi]@[x].boid, v)), compute, gi, x + 1),
{
    reveal(made_by);
    let after = forces.push((plan[gi]@[x].boid, v));
    assert forall|i: int| 0 <= i < after.len() implies #[trigger] made_at(plan, after, compute, gi, x + 1, i) by {
        if i < forces.len() {
            assert(after[i] == forces[i]);
            assert(made_at(plan, forces, compute, gi, x, i));
            let (a, k) = choose|a: int, k: int|
                task_before(plan, a, k, gi, x) && forces[i].0 == plan[a]@[k].boid && computes(
                    compute,
                    #[trigger] plan[a]@[k],
                    forces[i].1,
                );
            assert(task_before(plan, a, k, gi, x + 1));
        } else {
            assert(task_before(plan, gi, x, gi, x + 1));
        }
    }
}

proof fn lemma_covers_push<S, G, V>(
    plan: Seq<Vec<Task<S, G>>>,
    forces: Seq<(u64, V)>,
    gi: int,
    x: int,
    v: V,
)
    requires
        covers(plan, forces, gi, x),
        0 <= gi < plan.len(),
        0 <= x < plan[gi]@.len(),
    ensures
        covers(plan, forces.push((plan[gi]@[x].boid, v)), gi, x + 1),
{
    reveal(covers);
    let after = forces.push((plan[gi]@[x].boid, v));
    assert forall|a: int, k: int| task_before(plan, a, k, gi, x + 1) implies #[trigger] covered(plan, after, a, k) by {
        if a < gi || k < x {
            assert(task_before(plan, a, k, gi, x));
            assert(covered(plan, forces, a, k));
            let i = choose|i: int| 0 <= i < forces.len() && #[trigger] forces[i].0 == plan[a]@[k].boid;
            assert(after[i] == forces[i]);
        } else {
            assert(after[forces.len() as int].0 == plan[a]@[k].boid);
        }
    }
}

proof fn lemma_next_group<S, G, V, C: Fn(&Task<S, G>) -> V>(
    plan: Seq<Vec<Task<S, G>>>,
    forces: Seq<(u64, V)>,
    compute: C,
    gi: int,
)
    requires
        0 <= gi < plan.len(),
        made_by(plan, forces, compute, gi, plan[gi]@.len() as int),
        covers(plan, forces, gi, plan[gi]@.len() as int),
    ensures
        made_by(plan, forces, compute, gi + 1, 0),
        covers(plan, forces, gi + 1, 0),
{
    reveal(made_by);
    reveal(covers);
    let n = plan[gi]@.len() as int;
    assert forall|i: int| 0 <= i < forces.len() implies #[trigger] made_at(plan, forces, compute, gi + 1, 0, i) by {
        assert(made_at(plan, forces, compute, gi, n, i));
        let (a, k) = choose|a: int, k: int|
            task_before(plan, a, k, gi, n) && forces[i].0 == plan[a]@[k].boid && computes(
                compute,
                #[trigger] plan[a]@[k],
                forces[i].1,
            );
        assert(task_before(plan, a, k, gi + 1, 0));
    }
    assert forall|a: int, k: int| task_before(plan, a, k, gi + 1, 0) implies #[trigger] covered(plan, forces, a, k) by {
        assert(task_before(plan, a, k, gi, n));
    }
}

impl<S: Copy, G: Copy> Boids<S, G> {
    /// The boids of flock `g`, as (id, flock id, state), in registration
    /// order.
    pub open spec fn members(&self, g: u64) -> Seq<(u64, u64, S)> {
        self.rows().filter(in_flock(g))
    }

    /// The states of the boids of flock `g`, in registration order.
    pub open spec fn snapshot_of(&self, g: u64) -> Seq<S> {
        self.members(g).map_values(|a: (u64, u64, S)| a.2)
    }

    /// The task for the `k`-th member of the `gi`-th flock.
    pub open spec fn is_task_for(&self, gi: int, k: int, t: Task<S, G>) -> bool {
        let g = self.flock_ids()[gi];
        &&& t.boid == self.members(g)[k].0
        &&& t.state == self.members(g)[k].2
        &&& t.config == self.flock_configs()[gi]
        &&& t.snapshot@ == self.snapshot_of(g)
    }

    /// The tasks of one tick: for each flock in order, one task per member in
    /// order, all reading the same snapshot of that flock.
    pub fn plan(&self) -> (r: Vec<Vec<Task<S, G>>>)
        requires
            self.wf(),
        ensures
            self.is_plan(r@),
    {
        proof {
            self.lemma_rows();
        }
        let mut out: Vec<Vec<Task<S, G>>> = Vec::new();
        let n = set_len(&self.flocks);
        let mut gi: usize = 0;
        while gi < n
            invariant
                self.wf(),
                n == self.flock_ids().len(),
                self.flock_ids() == set_items(self.flocks),
                self.flock_configs() == self.configs@,
                self.flock_ids().len() == self.flock_configs().len(),
                0 <= gi <= n,
                out@.len() == gi,
                forall|a: int|
                    0 <= a < gi ==> (#[trigger] out@[a])@.len() == self.members(
                        self.flock_ids()[a],
                    ).len(),
                forall|a: int, k: int|
                    0 <= a < gi && 0 <= k < out@[a]@.len() ==> self.is_task_for(
                        a,
                        k,
                        #[trigger] out@[a]@[k],
                    ),
            decreases n - gi,
        {
            let g = set_item_at(&self.flocks, gi);
            let config = self.configs[gi];
            let tasks = self.group_tasks(g, config);
            out.push(tasks);
            proof {
                assert(out@[gi as int] == tasks);
            }
            gi = gi + 1;
        }
        out
    }

    /// The fault that the `i`-th of `forces` stands for: it is for a boid
    /// that is not registered, or for one that an earlier force is for.
    pub open spec fn force_fault<V>(&self, forces: Seq<(u64, V)>, i: int) -> Option<Fault> {
        if !self.has_boid(forces[i].0) {
            Some(Fault::UnknownBoid(forces[i].0))
        } else if exists|j: int| 0 <= j < i && forces[j].0 == forces[i].0 {
            Some(Fault::RepeatedForce(forces[i].0))
        } else {
            None
        }
    }

    /// Applies each of `forces`, a list of (boid id, force), to its boid
    /// with `apply`, after checking them all: where one is for an unknown
    /// boid or repeats a boid, nothing is applied and the first such fault
    /// is returned.
    pub fn apply_forces<V: Copy, F: Fn(S, V) -> S>(&mut self, forces: &Vec<(u64, V)>, apply: F) -> (r:
        Result<(), Fault>)
        requires
            old(self).wf(),
            forall|s: S, v: V| apply.requires((s, v)),
        ensures
            final(self).wf(),
            final(self).flock_ids() == old(self).flock_ids(),
            final(self).flock_configs() == old(self).flock_configs(),
            r is Ok <==> forall|i: int|
                0 <= i < forces@.len() ==> old(self).force_fault(forces@, i) is None,
            r matches Err(f) ==> exists|i: int|
                0 <= i < forces@.len() && old(self).force_fault(forces@, i) == Some(f) && forall|
                    j: int,
                | 0 <= j < i ==> old(self).force_fault(forces@, j) is None,
            r is Err ==> final(self).rows() == old(self).rows(),
            r is Ok ==> applied(old(self).rows(), final(self).rows(), forces@, apply),
    {
        proof {
            self.lemma_rows();
        }
        let ghost rows = self.rows();
        let n = forces.len();
        let m = map_len(&self.boids);
        let mut seen: Vec<bool> = Vec::new();
        while seen.len() < m
            invariant
                seen@.len() <= m,
                forall|k: int| 0 <= k < seen@.len() ==> !#[trigger] seen@[k],
            decreases m - seen@.len(),
        {
            seen.push(false);
        }
        let mut slots: Vec<usize> = Vec::new();
        let mut i: usize = 0;
        while i < n
            invariant
                self == old(self),
                self.wf(),
                rows == self.rows(),
                rows.len() == m,
                n == forces@.len(),
                0 <= i <= n,
                seen@.len() == m,
                slots@.len() == i,
                forall|j: int|
                    0 <= j < i ==> #[trigger] slots@[j] < m && rows[slots@[j] as int].0
                        == forces@[j].0,
                forall|j: int| 0 <= j < i ==> self.force_fault(forces@, j) is None,
                forall|a: int, b: int| 0 <= a < b < i ==> slots@[a] != slots@[b],
                forall|k: int|
                    0 <= k < m ==> (#[trigger] seen@[k] <==> exists|j: int|
                        0 <= j < i && slots@[j] == k),
            decreases n - i,
        {
            proof {
                self.lemma_rows();
            }
            let id = forces[i].0;
            match map_index_of(&self.boids, id) {
                None => {
                    assert(!self.has_boid(id)) by {
                        if self.has_boid(id) {
                            let k = choose|k: int|
                                0 <= k < rows.len() && #[trigger] rows[k].0 == id;
                            assert(key_at(map_entries(self.boids), id, k));
                        }
                    }
                    assert(self.force_fault(forces@, i as int) == Some(Fault::UnknownBoid(id)));
                    return Err(Fault::UnknownBoid(id));
                },
                Some(k) => {
                    assert(rows[k as int].0 == id);
                    if seen[k] {
                        let ghost j = choose|j: int| 0 <= j < i && slots@[j] == k;
                        assert(forces@[j].0 == id);
                        assert(self.has_boid(id));
                        assert(self.force_fault(forces@, i as int) == Some(Fault::RepeatedForce(id)));
                        return Err(Fault::RepeatedForce(id));
                    }
                    assert(!exists|j: int| 0 <= j < i && forces@[j].0 == forces@[i as int].0) by {
                        if exists|j: int| 0 <= j < i && forces@[j].0 == forces@[i as int].0 {
                            let j = choose|j: int|
                                0 <= j < i && forces@[j].0 == forces@[i as int].0;
                            let kj = slots@[j] as int;
                            assert(map_entries(self.boids)[kj].0 == map_entries(self.boids)[k as int].0);
                        }
                    }
                    let ghost slots_before = slots@;
                    let ghost seen_before = seen@;
                    seen.set(k, true);
                    slots.push(k);
                    proof {
                        assert(slots@ == slots_before.push(k));
                        assert forall|x: int| 0 <= x < m implies (#[trigger] seen@[x] <==> exists|j: int|
                            0 <= j < i + 1 && slots@[j] == x) by {
                            if x != k {
                                assert(seen@[x] == seen_before[x]);
                                if seen_before[x] {
                                    let j = choose|j: int| 0 <= j < i && slots_before[j] == x;
                                    assert(slots@[j] == x);
                                }
                                if exists|j: int| 0 <= j < i + 1 && slots@[j] == x {
                                    let j = choose|j: int| 0 <= j < i + 1 && slots@[j] == x;
                                    assert(j < i);
                                    assert(slots_before[j] == x);
                                }
                            } else {
                                assert(slots@[i as int] == x);
                            }
                        }
                    }
                },
            }
            i = i + 1;
        }
        let ghost states0 = self.states@;
        let mut i: usize = 0;
        while i < n
            invariant
                self.boids == old(self).boids,
                self.flocks == old(self).flocks,
                self.configs == old(self).configs,
                self.states@.len() == m,
                states0.len() == m,
                rows.len() == m,
                forall|k: int| 0 <= k < m ==> #[trigger] rows[k].2 == states0[k],
                n == forces@.len(),
                0 <= i <= n,
                slots@.len() == n,
                forall|j: int| 0 <= j < n ==> #[trigger] slots@[j] < m,
                forall|a: int, b: int| 0 <= a < b < n ==> slots@[a] != slots@[b],
                forall|k: int|
                    0 <= k < m && (forall|j: int| 0 <= j < i ==> slots@[j] != k)
                        ==> #[trigger] self.states@[k] == states0[k],
                forall|j: int|
                    0 <= j < i ==> apply.ensures(
                        (states0[#[trigger] slots@[j] as int], forces@[j].1),
                        self.states@[slots@[j] as int],
                    ),
                forall|s: S, v: V| apply.requires((s, v)),
            decreases n - i,
        {
            let k = slots[i];
            let v = forces[i].1;
            let s = self.states[k];
            let t = apply(s, v);
            self.states.set(k, t);
            proof {
                assert(s == states0[k as int]);
            }
            i = i + 1;
        }
        proof {
            old(self).lemma_wf_states(self);
            self.lemma_rows();
            let after = self.rows();
            assert forall|k: int| 0 <= k < rows.len() implies {
                &&& (#[trigger] after[k]).0 == rows[k].0
                &&& after[k].1 == rows[k].1
                &&& (exists|i: int| 0 <= i < forces@.len() && forces@[i].0 == rows[k].0)
                    ==> (exists|i: int|
                    0 <= i < forces@.len() && forces@[i].0 == rows[k].0 && apply.ensures(
                        (rows[k].2, forces@[i].1),
                        after[k].2,
                    ))
                &&& !(exists|i: int| 0 <= i < forces@.len() && forces@[i].0 == rows[k].0)
                    ==> after[k].2 == rows[k].2
            } by {
                if exists|i: int| 0 <= i < forces@.len() && forces@[i].0 == rows[k].0 {
                    let i = choose|i: int| 0 <= i < forces@.len() && forces@[i].0 == rows[k].0;
                    let ks = slots@[i] as int;
                    assert(map_entries(self.boids)[ks].0 == map_entries(self.boids)[k].0);
                    assert(ks == k);
                } else {
                    assert forall|j: int| 0 <= j < n implies slots@[j] != k by {
                        if slots@[j] == k {
                            assert(forces@[j].0 == rows[k].0);
                        }
                    }
                }
            }
        }
        Ok(())
    }

    /// Whether `t` is one of the tasks that `plan` returns.
    pub open spec fn has_task(&self, t: Task<S, G>) -> bool {
        exists|gi: int, x: int|
            0 <= gi < self.flock_ids().len() && 0 <= x < self.members(self.flock_ids()[gi]).len()
                && #[trigger] self.is_task_for(gi, x, t)
    }

    /// `plan` holds, for each flock in order, one task per member in order.
    pub open spec fn is_plan(&self, plan: Seq<Vec<Task<S, G>>>) -> bool {
        &&& plan.len() == self.flock_ids().len()
        &&& forall|gi: int|
            0 <= gi < plan.len() ==> (#[trigger] plan[gi])@.len() == self.members(
                self.flock_ids()[gi],
            ).len()
        &&& forall|gi: int, k: int|
            0 <= gi < plan.len() && 0 <= k < plan[gi]@.len() ==> self.is_task_for(
                gi,
                k,
                #[trigger] plan[gi]@[k],
            )
    }

    /// `f`, an (boid id, force), is what `compute` may return on a task of
    /// `plan` for that boid.
    pub open spec fn computed_from_task<V, C: Fn(&Task<S, G>) -> V>(&self, compute: C, f: (u64, V)) -> bool {
        exists|t: Task<S, G>| #[trigger] self.has_task(t) && t.boid == f.0 && computes(compute, t, f.1)
    }

    /// Runs one tick in order: plans the tasks, computes each boid's force
    /// with `compute`, one task after the other, and then applies them all
    /// with `apply`. Returns the forces, as (boid id, force).
    pub fn process_sequential<V: Copy, C: Fn(&Task<S, G>) -> V, F: Fn(S, V) -> S>(
        &mut self,
        compute: C,
        apply: F,
    ) -> (forces: Vec<(u64, V)>)
        requires
            old(self).wf(),
            forall|t: &Task<S, G>| compute.requires((t,)),
            forall|s: S, v: V| apply.requires((s, v)),
        ensures
            final(self).wf(),
            final(self).flock_ids() == old(self).flock_ids(),
            final(self).flock_configs() == old(self).flock_configs(),
            forall|i: int|
                0 <= i < forces@.len() ==> #[trigger] old(self).computed_from_task(
                    compute,
                    forces@[i],
                ),
            forall|k: int|
                0 <= k < old(self).rows().len() ==> has_force(
                    forces@,
                    #[trigger] old(self).rows()[k].0,
                ),
            forall|a: int, b: int| 0 <= a < b < forces@.len() ==> forces@[a].0 != forces@[b].0,
            applied(old(self).rows(), final(self).rows(), forces@, apply),
    {
        let plan = self.plan();
        let mut forces: Vec<(u64, V)> = Vec::new();
        proof {
            reveal(made_by);
            reveal(covers);
        }
        let mut gi: usize = 0;
        while gi < plan.len()
            invariant
                self == old(self),
                self.wf(),
                self.is_plan(plan@),
                forall|t: &Task<S, G>| compute.requires((t,)),
                0 <= gi <= plan@.len(),
                made_by(plan@, forces@, compute, gi as int, 0),
                covers(plan@, forces@, gi as int, 0),
                forall|a: int, b: int| 0 <= a < b < forces@.len() ==> forces@[a].0 != forces@[b].0,
            decreases plan@.len() - gi,
        {
            self.compute_group(&plan, gi, &compute, &mut forces);
            gi = gi + 1;
        }
        proof {
            reveal(made_by);
            reveal(covers);
            assert forall|i: int| 0 <= i < forces@.len() implies self.force_fault(forces@, i) is None by {
                assert(made_at(plan@, forces@, compute, gi as int, 0, i));
                let (a, k) = choose|a: int, k: int|
                    task_before(plan@, a, k, gi as int, 0) && forces@[i].0 == plan@[a]@[k].boid
                        && computes(compute, #[trigger] plan@[a]@[k], forces@[i].1);
                assert(self.is_task_for(a, k, plan@[a]@[k]));
                let r = self.lemma_member_row(self.flock_ids()[a], k);
                assert(self.rows()[r].0 == forces@[i].0);
            }
        }
        assert(old(self).is_plan(plan@));
        let done = self.apply_forces(&forces, apply);
        assert(done is Ok);
        proof {
            reveal(made_by);
            reveal(covers);
            assert forall|i: int| 0 <= i < forces@.len() implies #[trigger] old(self).computed_from_task(
                compute,
                forces@[i],
            ) by {
                assert(made_at(plan@, forces@, compute, gi as int, 0, i));
                let (a, k) = choose|a: int, k: int|
                    task_before(plan@, a, k, gi as int, 0) && forces@[i].0 == plan@[a]@[k].boid
                        && computes(compute, #[trigger] plan@[a]@[k], forces@[i].1);
                let t = plan@[a]@[k];
                assert(old(self).is_task_for(a, k, t));
                assert(old(self).has_task(t));
            }
            assert forall|k: int| 0 <= k < old(self).rows().len() implies has_force(
                forces@,
                #[trigger] old(self).rows()[k].0,
            ) by {
                let (a, x) = old(self).lemma_row_member(k);
                assert(old(self).is_task_for(a, x, plan@[a]@[x]));
                assert(plan@[a]@[x].boid == old(self).rows()[k].0);
                assert(task_before(plan@, a, x, gi as int, 0));
                assert(covered(plan@, forces@, a, x));
            }
        }
        forces
    }

    /// Computes the forces of the tasks of the `gi`-th flock, in order.
    fn compute_group<V: Copy, C: Fn(&Task<S, G>) -> V>(
        &self,
        plan: &Vec<Vec<Task<S, G>>>,
        gi: usize,
        compute: &C,
        forces: &mut Vec<(u64, V)>,
    )
        requires
            self.wf(),
            self.is_plan(plan@),
            gi < plan@.len(),
            forall|t: &Task<S, G>| compute.requires((t,)),
            made_by(plan@, old(forces)@, *compute, gi as int, 0),
            covers(plan@, old(forces)@, gi as int, 0),
            forall|a: int, b: int|
                0 <= a < b < old(forces)@.len() ==> old(forces)@[a].0 != old(forces)@[b].0,
        ensures
            made_by(plan@, final(forces)@, *compute, gi + 1, 0),
            covers(plan@, final(forces)@, gi + 1, 0),
            forall|a: int, b: int|
                0 <= a < b < final(forces)@.len() ==> final(forces)@[a].0 != final(forces)@[b].0,
    {
        proof {
            self.lemma_rows();
        }
        let tasks = &plan[gi];
        let mut x: usize = 0;
        while x < tasks.len()
            invariant
                self.wf(),
                self.is_plan(plan@),
                gi < plan@.len(),
                *tasks == plan@[gi as int],
                forall|t: &Task<S, G>| compute.requires((t,)),
                0 <= x <= tasks@.len(),
                made_by(plan@, forces@, *compute, gi as int, x as int),
                covers(plan@, forces@, gi as int, x as int),
                forall|a: int, b: int| 0 <= a < b < forces@.len() ==> forces@[a].0 != forces@[b].0,
            decreases tasks@.len() - x,
        {
            let t = &tasks[x];
            let v = compute(t);
            proof {
                self.lemma_fresh(plan@, forces@, *compute, gi as int, x as int);
                lemma_made_by_push(plan@, forces@, *compute, gi as int, x as int, v);
                lemma_covers_push(plan@, forces@, gi as int, x as int, v);
            }
            forces.push((t.boid, v));
            x = x + 1;
        }
        proof {
            lemma_next_group(plan@, forces@, *compute, gi as int);
        }
    }

    /// The boid of the `x`-th task of the `gi`-th flock has no force yet.
    proof fn lemma_fresh<V, C: Fn(&Task<S, G>) -> V>(
        &self,
        plan: Seq<Vec<Task<S, G>>>,
        forces: Seq<(u64, V)>,
        compute: C,
        gi: int,
        x: int,
    )
        requires
            self.wf(),
            self.is_plan(plan),
            0 <= gi < plan.len(),
            0 <= x < plan[gi]@.len(),
            made_by(plan, forces, compute, gi, x),
        ensures
            forall|i: int| 0 <= i < forces.len() ==> forces[i].0 != plan[gi]@[x].boid,
    {
        reveal(made_by);
        self.lemma_rows();
        let gids = self.flock_ids();
        assert forall|i: int| 0 <= i < forces.len() implies forces[i].0 != plan[gi]@[x].boid by {
            assert(made_at(plan, forces, compute, gi, x, i));
            let (a, k) = choose|a: int, k: int|
                task_before(plan, a, k, gi, x) && forces[i].0 == plan[a]@[k].boid && computes(
                    compute,
                    #[trigger] plan[a]@[k],
                    forces[i].1,
                );
            assert(self.is_task_for(a, k, plan[a]@[k]));
            assert(self.is_task_for(gi, x, plan[gi]@[x]));
            if forces[i].0 == plan[gi]@[x].boid {
                self.lemma_member_unique(gids[a], k, gids[gi], x);
            }
        }
    }

    /// Snapshotting is idempotent: two plans of the same registry hand every
    /// task the same boid, state, configuration and snapshot.
    pub proof fn lemma_plan_deterministic(&self, p1: Seq<Vec<Task<S, G>>>, p2: Seq<Vec<Task<S, G>>>)
        requires
            self.is_plan(p1),
            self.is_plan(p2),
        ensures
            p1.len() == p2.len(),
            forall|gi: int| 0 <= gi < p1.len() ==> (#[trigger] p1[gi])@.len() == p2[gi]@.len(),
            forall|gi: int, k: int|
                0 <= gi < p1.len() && 0 <= k < p1[gi]@.len() ==> {
                    let (t1, t2) = (#[trigger] p1[gi]@[k], p2[gi]@[k]);
                    &&& t1.boid == t2.boid
                    &&& t1.state == t2.state
                    &&& t1.config == t2.config
                    &&& t1.snapshot@ == t2.snapshot@
                },
    {
        assert forall|gi: int, k: int| 0 <= gi < p1.len() && 0 <= k < p1[gi]@.len() implies {
            let (t1, t2) = (#[trigger] p1[gi]@[k], p2[gi]@[k]);
            &&& t1.boid == t2.boid
            &&& t1.state == t2.state
            &&& t1.config == t2.config
            &&& t1.snapshot@ == t2.snapshot@
        } by {
            assert(self.is_task_for(gi, k, p1[gi]@[k]));
            assert(p2[gi]@.len() == p1[gi]@.len());
            assert(self.is_task_for(gi, k, p2[gi]@[k]));
        }
    }

    /// `forces` holds no fault exactly when each is for a registered boid and
    /// no two are for the same boid.
    proof fn lemma_no_fault_iff<V>(&self, forces: Seq<(u64, V)>)
        ensures
            (forall|i: int| 0 <= i < forces.len() ==> #[trigger] self.force_fault(forces, i) is None)
                <==> (forall|i: int| 0 <= i < forces.len() ==> self.has_boid(#[trigger] forces[i].0))
                && forces_distinct(forces),
    {
        if forall|i: int| 0 <= i < forces.len() ==> #[trigger] self.force_fault(forces, i) is None {
            assert forall|i: int| 0 <= i < forces.len() implies self.has_boid(#[trigger] forces[i].0) by {
                assert(self.force_fault(forces, i) is None);
            }
            assert forall|a: int, b: int| 0 <= a < b < forces.len() implies forces[a].0 != forces[b].0 by {
                assert(self.force_fault(forces, b) is None);
            }
        }
    }

    /// Applying forces does not depend on their order: two lists of
    /// (boid id, force) pairs that hold the same pairs, as many times each,
    /// are both accepted by `apply_forces` or both refused, and where they are
    /// accepted they allow the same new states.
    pub proof fn lemma_apply_order_free<V, F: Fn(S, V) -> S>(
        &self,
        f1: Seq<(u64, V)>,
        f2: Seq<(u64, V)>,
        after: Seq<(u64, u64, S)>,
        apply: F,
    )
        requires
            self.wf(),
            f1.to_multiset() == f2.to_multiset(),
        ensures
            (forall|i: int| 0 <= i < f1.len() ==> #[trigger] self.force_fault(f1, i) is None) <==> (
            forall|i: int| 0 <= i < f2.len() ==> #[trigger] self.force_fault(f2, i) is None),
            applied(self.rows(), after, f1, apply) <==> applied(self.rows(), after, f2, apply),
    {
        broadcast use vstd::seq_lib::group_to_multiset_ensures;

        assert forall|x: (u64, V)| f2.contains(x) <==> f1.contains(x) by {
            assert(f2.contains(x) <==> f2.to_multiset().count(x) > 0);
            assert(f1.contains(x) <==> f1.to_multiset().count(x) > 0);
        }
        self.lemma_no_fault_iff(f1);
        self.lemma_no_fault_iff(f2);
        if forces_distinct(f1) {
            lemma_forces_distinct_transfer(f1, f2);
        }
        if forces_distinct(f2) {
            lemma_forces_distinct_transfer(f2, f1);
        }
        assert((forall|i: int| 0 <= i < f1.len() ==> self.has_boid(#[trigger] f1[i].0)) <==> (forall|
            i: int,
        | 0 <= i < f2.len() ==> self.has_boid(#[trigger] f2[i].0))) by {
            if forall|i: int| 0 <= i < f1.len() ==> self.has_boid(#[trigger] f1[i].0) {
                assert forall|i: int| 0 <= i < f2.len() implies self.has_boid(#[trigger] f2[i].0) by {
                    assert(f2.contains(f2[i]));
                    let j = choose|j: int| 0 <= j < f1.len() && f1[j] == f2[i];
                }
            }
            if forall|i: int| 0 <= i < f2.len() ==> self.has_boid(#[trigger] f2[i].0) {
                assert forall|i: int| 0 <= i < f1.len() implies self.has_boid(#[trigger] f1[i].0) by {
                    assert(f1.contains(f1[i]));
                    let j = choose|j: int| 0 <= j < f2.len() && f2[j] == f1[i];
                }
            }
        }
        if applied(self.rows(), after, f1, apply) {
            lemma_applied_transfer(self.rows(), after, f1, f2, apply);
        }
        if applied(self.rows(), after, f2, apply) {
            lemma_applied_transfer(self.rows(), after, f2, f1, apply);
        }
    }

    proof fn lemma_rows_ids_distinct(&self)
        requires
            self.wf(),
        ensures
            ids_distinct(self.rows()),
    {
        self.lemma_rows();
        let e = map_entries(self.boids);
        assert forall|i: int, j: int| 0 <= i < j < self.rows().len() implies self.rows()[i].0
            != self.rows()[j].0 by {
            assert(e[i].0 != e[j].0);
        }
    }

    /// A member is a row of the registry, of the flock it was taken from.
    proof fn lemma_member_row(&self, g: u64, x: int) -> (r: int)
        requires
            self.wf(),
            0 <= x < self.members(g).len(),
        ensures
            0 <= r < self.rows().len(),
            self.rows()[r] == self.members(g)[x],
            self.members(g)[x].1 == g,
    {
        self.rows().lemma_filter_pred(in_flock(g), x);
        assert(self.members(g).contains(self.members(g)[x]));
        self.rows().lemma_filter_contains_rev(in_flock(g), self.members(g)[x]);
        choose|r: int| 0 <= r < self.rows().len() && self.rows()[r] == self.members(g)[x]
    }

    /// An id stands for at most one member of at most one flock.
    proof fn lemma_member_unique(&self, g1: u64, x1: int, g2: u64, x2: int)
        requires
            self.wf(),
            0 <= x1 < self.members(g1).len(),
            0 <= x2 < self.members(g2).len(),
            self.members(g1)[x1].0 == self.members(g2)[x2].0,
        ensures
            g1 == g2,
            x1 == x2,
    {
        self.lemma_rows_ids_distinct();
        let r1 = self.lemma_member_row(g1, x1);
        let r2 = self.lemma_member_row(g2, x2);
        assert(r1 == r2);
        lemma_filter_ids_distinct(self.rows(), in_flock(g1));
    }

    /// Every boid is a member of its flock, which is registered.
    proof fn lemma_row_member(&self, k: int) -> (r: (int, int))
        requires
            self.wf(),
            0 <= k < self.rows().len(),
        ensures
            0 <= r.0 < self.flock_ids().len(),
            self.flock_ids()[r.0] == self.rows()[k].1,
            0 <= r.1 < self.members(self.rows()[k].1).len(),
            self.members(self.rows()[k].1)[r.1] == self.rows()[k],
    {
        self.lemma_rows();
        let g = self.rows()[k].1;
        assert(map_entries(self.boids)[k].1 == g);
        let gi = choose|gi: int| 0 <= gi < self.flock_ids().len() && self.flock_ids()[gi] == g;
        self.rows().lemma_filter_contains(in_flock(g), k);
        let x = choose|x: int| 0 <= x < self.members(g).len() && self.members(g)[x] == self.rows()[k];
        (gi, x)
    }

    /// The tasks of flock `g` with configuration `config`.
    fn group_tasks(&self, g: u64, config: G) -> (r: Vec<Task<S, G>>)
        requires
            self.wf(),
        ensures
            r@.len() == self.members(g).len(),
            forall|k: int|
                0 <= k < r@.len() ==> {
                    let t = #[trigger] r@[k];
                    &&& t.boid == self.members(g)[k].0
                    &&& t.state == self.members(g)[k].2
                    &&& t.config == config
                    &&& t.snapshot@ == self.snapshot_of(g)
                },
    {
        proof {
            self.lemma_rows();
        }
        let ghost rows = self.rows();
        let ghost p = in_flock::<S>(g);
        let m = map_len(&self.boids);
        let mut ids: Vec<u64> = Vec::new();
        let mut snap: Vec<S> = Vec::new();
        let mut i: usize = 0;
        while i < m
            invariant
                self.wf(),
                m == rows.len(),
                rows == self.rows(),
                p == in_flock::<S>(g),
                0 <= i <= m,
                ids@.len() == rows.take(i as int).filter(p).len(),
                snap@.len() == ids@.len(),
                forall|k: int|
                    0 <= k < ids@.len() ==> #[trigger] ids@[k] == rows.take(i as int).filter(p)[k].0 && snap@[k] == rows.take(i as int).filter(p)[k].2,
            decreases m - i,
        {
            proof {
                self.lemma_rows();
                lemma_filter_take_step(rows, p, i as int);
            }
            let (id, owner) = map_entry_at(&self.boids, i);
            if owner == g {
                ids.push(id);
                snap.push(self.states[i]);
            }
            i = i + 1;
        }
        proof {
            assert(rows.take(m as int) =~= rows);
            assert(self.members(g) == rows.filter(p));
            assert forall|k: int| 0 <= k < snap@.len() implies #[trigger] snap@[k]
                == self.snapshot_of(g)[k] by {
                assert(ids@[k] == rows.take(m as int).filter(p)[k].0);
                assert(snap@[k] == rows.take(m as int).filter(p)[k].2);
            }
            assert(snap@ =~= self.snapshot_of(g));
        }
        let shared = Arc::new(snap);
        let mut tasks: Vec<Task<S, G>> = Vec::new();
        let mut k: usize = 0;
        while k < ids.len()
            invariant
                shared@ == self.snapshot_of(g),
                ids@.len() == self.members(g).len(),
                forall|x: int| 0 <= x < ids@.len() ==> #[trigger] ids@[x] == self.members(g)[x].0,
                0 <= k <= ids@.len(),
                tasks@.len() == k,
                forall|x: int|
                    0 <= x < k ==> {
                        let t = #[trigger] tasks@[x];
                        &&& t.boid == self.members(g)[x].0
                        &&& t.state == self.members(g)[x].2
                        &&& t.config == config
                        &&& t.snapshot@ == self.snapshot_of(g)
                    },
            decreases ids@.len() - k,
        {
            let snapshot = share(&shared);
            let state = shared[k];
            tasks.push(Task { boid: ids[k], state, config, snapshot });
            k = k + 1;
        }
        tasks
    }
}

} // verus!
