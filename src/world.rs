//! The registry of flocks and boids.
//!
//! Boids are kept in one table in registration order, each with the id of
//! the flock it belongs to and its state; a flock's members are the boids
//! of that table whose flock is that flock, in the same order.
use crate::table::{
    has_key, key_at, keys_distinct, map_entries, map_entry_at, map_index_of, map_insert_new,
    map_len, map_new, map_shift_remove, set_contains, set_insert_new, set_item_at, set_items,
    set_len, set_new, set_shift_remove, IdMap, IdSet,
};
use crate::seqs::lemma_filter_take_step;
use vstd::prelude::*;

verus! {

/// A fault in the use of the registry or in the results of a tick.
#[derive(PartialEq, Eq, Structural, Debug, Clone, Copy)]
pub enum Fault {
    /// A flock with this id is registered already.
    DuplicateFlock(u64),
    /// No flock with this id is registered.
    UnknownFlock(u64),
    /// A boid with this id is registered already.
    DuplicateBoid(u64),
    /// No boid with this id is registered.
    UnknownBoid(u64),
    /// A tick's results hold more than one force for this boid.
    RepeatedForce(u64),
}

/// Flocks and their boids.
///
/// `S` is the state of one boid (its position, velocity and properties),
/// `G` the configuration of one flock (its radii and its target).
pub struct Boids<S, G> {
    pub(crate) boids: IdMap,
    pub(crate) states: Vec<S>,
    pub(crate) flocks: IdSet,
    pub(crate) configs: Vec<G>,
}

impl<S, G> Boids<S, G> {
    /// The boids in registration order, as (id, flock id, state).
    pub closed spec fn rows(&self) -> Seq<(u64, u64, S)> {
        Seq::new(
            self.states@.len(),
            |i: int| (map_entries(self.boids)[i].0, map_entries(self.boids)[i].1, self.states@[i]),
        )
    }

    /// The flock ids in registration order.
    pub closed spec fn flock_ids(&self) -> Seq<u64> {
        set_items(self.flocks)
    }

    /// The flock configurations, in the order of `flock_ids`.
    pub closed spec fn flock_configs(&self) -> Seq<G> {
        self.configs@
    }

    /// The tables agree with each other.
    pub closed spec fn wf(&self) -> bool {
        &&& map_entries(self.boids).len() == self.states@.len()
        &&& keys_distinct(map_entries(self.boids))
        &&& set_items(self.flocks).no_duplicates()
        &&& set_items(self.flocks).len() == self.configs@.len()
        &&& forall|i: int|
            0 <= i < map_entries(self.boids).len() ==> set_items(self.flocks).contains(
                #[trigger] map_entries(self.boids)[i].1,
            )
    }

    pub(crate) proof fn lemma_rows(&self)
        requires
            self.wf(),
        ensures
            self.flock_ids() == set_items(self.flocks),
            self.flock_configs() == self.configs@,
            self.flock_ids().len() == self.flock_configs().len(),
            self.flock_ids().no_duplicates(),
            self.states@.len() == map_entries(self.boids).len(),
            keys_distinct(map_entries(self.boids)),
            forall|i: int|
                0 <= i < map_entries(self.boids).len() ==> self.flock_ids().contains(
                    #[trigger] map_entries(self.boids)[i].1,
                ),
            self.rows().len() == map_entries(self.boids).len(),
            forall|i: int|
                0 <= i < self.rows().len() ==> (#[trigger] self.rows()[i]).0 == map_entries(
                    self.boids,
                )[i].0 && self.rows()[i].1 == map_entries(self.boids)[i].1
                    && self.rows()[i].2 == self.states@[i],
    {
    }

    /// Well-formedness rests on the states only through their number.
    pub(crate) proof fn lemma_wf_states(&self, other: &Self)
        requires
            self.wf(),
            other.boids == self.boids,
            other.flocks == self.flocks,
            other.configs == self.configs,
            other.states@.len() == self.states@.len(),
        ensures
            other.wf(),
    {
    }

    /// Whether a boid with id `id` is registered.
    pub open spec fn has_boid(&self, id: u64) -> bool {
        exists|i: int| 0 <= i < self.rows().len() && #[trigger] self.rows()[i].0 == id
    }

    /// An empty registry.
    pub fn new() -> (r: Self)
        ensures
            r.wf(),
            r.rows() == Seq::<(u64, u64, S)>::empty(),
            r.flock_ids() == Seq::<u64>::empty(),
            r.flock_configs() == Seq::<G>::empty(),
    {
        let r = Boids { boids: map_new(), states: Vec::new(), flocks: set_new(), configs: Vec::new() };
        assert(r.rows() =~= Seq::<(u64, u64, S)>::empty());
        r
    }

    /// The number of registered boids.
    pub fn boid_count(&self) -> (r: usize)
        requires
            self.wf(),
        ensures
            r == self.rows().len(),
    {
        map_len(&self.boids)
    }

    /// The number of registered flocks.
    pub fn flock_count(&self) -> (r: usize)
        requires
            self.wf(),
        ensures
            r == self.flock_ids().len(),
    {
        set_len(&self.flocks)
    }
}

impl<S: Copy, G> Boids<S, G> {
    /// The id of the flock of the boid with id `id`, if it is registered.
    pub fn get_flock_id(&self, id: u64) -> (r: Option<u64>)
        requires
            self.wf(),
        ensures
            r is None <==> !self.has_boid(id),
            r matches Some(g) ==> exists|i: int|
                0 <= i < self.rows().len() && self.rows()[i].0 == id && self.rows()[i].1 == g,
    {
        proof {
            self.lemma_rows();
        }
        match map_index_of(&self.boids, id) {
            None => {
                proof {
                    self.lemma_no_row(id);
                }
                None
            },
            Some(i) => {
                let (_, g) = map_entry_at(&self.boids, i);
                assert(self.rows()[i as int].0 == id);
                Some(g)
            },
        }
    }

    /// The state of the boid with id `id`, if it is registered.
    pub fn get_state(&self, id: u64) -> (r: Option<S>)
        requires
            self.wf(),
        ensures
            r is None <==> !self.has_boid(id),
            r matches Some(s) ==> exists|i: int|
                0 <= i < self.rows().len() && self.rows()[i].0 == id && self.rows()[i].2 == s,
    {
        proof {
            self.lemma_rows();
        }
        match map_index_of(&self.boids, id) {
            None => {
                proof {
                    self.lemma_no_row(id);
                }
                None
            },
            Some(i) => {
                assert(self.rows()[i as int].0 == id);
                Some(self.states[i])
            },
        }
    }
}

impl<S, G> Boids<S, G> {
    /// Replaces the state of the boid with id `id`. Fails, changing nothing,
    /// where no such boid is registered.
    pub fn set_state(&mut self, id: u64, state: S) -> (r: Result<(), Fault>)
        requires
            old(self).wf(),
        ensures
            final(self).wf(),
            final(self).flock_ids() == old(self).flock_ids(),
            final(self).flock_configs() == old(self).flock_configs(),
            r is Err <==> !old(self).has_boid(id),
            r is Err ==> r == Err::<(), Fault>(Fault::UnknownBoid(id))
                && final(self).rows() == old(self).rows(),
            r is Ok ==> exists|i: int|
                0 <= i < old(self).rows().len() && old(self).rows()[i].0 == id
                    && final(self).rows() == old(self).rows().update(i, (id, old(self).rows()[i].1, state)),
    {
        proof {
            self.lemma_rows();
        }
        match map_index_of(&self.boids, id) {
            None => {
                proof {
                    self.lemma_no_row(id);
                }
                Err(Fault::UnknownBoid(id))
            },
            Some(i) => {
                assert(self.rows()[i as int].0 == id);
                self.states.set(i, state);
                assert(self.rows() =~= old(self).rows().update(
                    i as int,
                    (id, old(self).rows()[i as int].1, state),
                ));
                Ok(())
            },
        }
    }

    /// An id that is no key of the table is no registered boid.
    proof fn lemma_no_row(&self, id: u64)
        requires
            self.wf(),
            !has_key(map_entries(self.boids), id),
        ensures
            !self.has_boid(id),
    {
        self.lemma_rows();
        if self.has_boid(id) {
            let i = choose|i: int| 0 <= i < self.rows().len() && #[trigger] self.rows()[i].0 == id;
            assert(key_at(map_entries(self.boids), id, i));
        }
    }

    /// Registers a flock with id `id` and configuration `config`, last in
    /// order. Fails, changing nothing, where the id is taken.
    pub fn register_flock(&mut self, id: u64, config: G) -> (r: Result<(), Fault>)
        requires
            old(self).wf(),
        ensures
            final(self).wf(),
            r == Err::<(), Fault>(Fault::DuplicateFlock(id)) <==> old(self).flock_ids().contains(id),
            r is Ok <==> !old(self).flock_ids().contains(id),
            r is Ok ==> final(self).flock_ids() == old(self).flock_ids().push(id)
                && final(self).flock_configs() == old(self).flock_configs().push(config)
                && final(self).rows() == old(self).rows(),
            r is Err ==> final(self).flock_ids() == old(self).flock_ids()
                && final(self).flock_configs() == old(self).flock_configs()
                && final(self).rows() == old(self).rows(),
    {
        if set_contains(&self.flocks, id) {
            return Err(Fault::DuplicateFlock(id));
        }
        set_insert_new(&mut self.flocks, id);
        self.configs.push(config);
        proof {
            let old_items = set_items(old(self).flocks);
            assert forall|i: int|
                0 <= i < map_entries(self.boids).len() implies set_items(self.flocks).contains(
                #[trigger] map_entries(self.boids)[i].1,
            ) by {
                let j = choose|j: int|
                    0 <= j < old_items.len() && old_items[j] == map_entries(self.boids)[i].1;
                assert(set_items(self.flocks)[j] == old_items[j]);
            }
        }
        assert(self.rows() =~= old(self).rows());
        Ok(())
    }

    /// Registers a boid with id `id` and state `state` in flock `flock`,
    /// last in order. Fails, changing nothing, where the flock is not
    /// registered, and otherwise where the id is taken.
    pub fn register_boid(&mut self, flock: u64, id: u64, state: S) -> (r: Result<(), Fault>)
        requires
            old(self).wf(),
        ensures
            final(self).wf(),
            final(self).flock_ids() == old(self).flock_ids(),
            final(self).flock_configs() == old(self).flock_configs(),
            !old(self).flock_ids().contains(flock) ==> r == Err::<(), Fault>(
                Fault::UnknownFlock(flock),
            ),
            old(self).flock_ids().contains(flock) && old(self).has_boid(id) ==> r == Err::<
                (),
                Fault,
            >(Fault::DuplicateBoid(id)),
            old(self).flock_ids().contains(flock) && !old(self).has_boid(id) ==> r is Ok,
            r is Ok ==> final(self).rows() == old(self).rows().push((id, flock, state)),
            r is Err ==> final(self).rows() == old(self).rows(),
    {
        proof {
            self.lemma_rows();
        }
        if !set_contains(&self.flocks, flock) {
            return Err(Fault::UnknownFlock(flock));
        }
        match map_index_of(&self.boids, id) {
            Some(i) => {
                assert(self.rows()[i as int].0 == id);
                return Err(Fault::DuplicateBoid(id));
            },
            None => {},
        }
        assert(!old(self).has_boid(id)) by {
            if old(self).has_boid(id) {
                let i = choose|i: int|
                    0 <= i < old(self).rows().len() && #[trigger] old(self).rows()[i].0 == id;
                assert(key_at(map_entries(old(self).boids), id, i));
            }
        }
        map_insert_new(&mut self.boids, id, flock);
        self.states.push(state);
        proof {
            let e = map_entries(self.boids);
            let oe = map_entries(old(self).boids);
            assert forall|a: int, b: int| 0 <= a < b < e.len() implies e[a].0 != e[b].0 by {
                if b == e.len() - 1 {
                    assert(key_at(oe, e[a].0, a));
                }
            }
            assert forall|i: int| 0 <= i < e.len() implies set_items(self.flocks).contains(
                #[trigger] e[i].1,
            ) by {
                if i < oe.len() {
                    assert(oe[i] == e[i]);
                }
            }
        }
        assert(self.rows() =~= old(self).rows().push((id, flock, state)));
        Ok(())
    }

    /// Takes out the boid at position `i`.
    fn remove_row(&mut self, i: usize)
        requires
            old(self).wf(),
            i < old(self).rows().len(),
        ensures
            final(self).wf(),
            final(self).flocks == old(self).flocks,
            final(self).configs == old(self).configs,
            final(self).rows() == old(self).rows().remove(i as int),
    {
        proof {
            self.lemma_rows();
        }
        let (k, _) = map_entry_at(&self.boids, i);
        let removed = map_shift_remove(&mut self.boids, k);
        proof {
            let oe = map_entries(old(self).boids);
            assert(key_at(oe, k, i as int));
            let j = removed.unwrap().0 as int;
            assert(j == i) by {
                if j != i {
                    assert(oe[j].0 == oe[i as int].0);
                }
            }
        }
        self.states.remove(i);
        proof {
            let e = map_entries(self.boids);
            let oe = map_entries(old(self).boids);
            assert forall|a: int, b: int| 0 <= a < b < e.len() implies e[a].0 != e[b].0 by {
                let a2 = if a < i { a } else { a + 1 };
                let b2 = if b < i { b } else { b + 1 };
                assert(e[a] == oe[a2] && e[b] == oe[b2]);
            }
            assert forall|x: int| 0 <= x < e.len() implies set_items(self.flocks).contains(
                #[trigger] e[x].1,
            ) by {
                let x2 = if x < i { x } else { x + 1 };
                assert(e[x] == oe[x2]);
            }
            assert(self.rows() =~= old(self).rows().remove(i as int));
        }
    }

    /// Unregisters the boid with id `id`; the boids after it keep their
    /// order. Fails, changing nothing, where no such boid is registered.
    pub fn unregister_boid(&mut self, id: u64) -> (r: Result<(), Fault>)
        requires
            old(self).wf(),
        ensures
            final(self).wf(),
            final(self).flock_ids() == old(self).flock_ids(),
            final(self).flock_configs() == old(self).flock_configs(),
            r is Err <==> !old(self).has_boid(id),
            r is Err ==> r == Err::<(), Fault>(Fault::UnknownBoid(id))
                && final(self).rows() == old(self).rows(),
            r is Ok ==> exists|i: int|
                0 <= i < old(self).rows().len() && old(self).rows()[i].0 == id
                    && final(self).rows() == old(self).rows().remove(i),
    {
        proof {
            self.lemma_rows();
        }
        match map_index_of(&self.boids, id) {
            None => {
                assert(!old(self).has_boid(id)) by {
                    if old(self).has_boid(id) {
                        let i = choose|i: int|
                            0 <= i < old(self).rows().len() && #[trigger] old(self).rows()[i].0 == id;
                        assert(key_at(map_entries(old(self).boids), id, i));
                    }
                }
                Err(Fault::UnknownBoid(id))
            },
            Some(i) => {
                assert(self.rows()[i as int].0 == id);
                self.remove_row(i);
                Ok(())
            },
        }
    }

    /// Unregisters the flock with id `id` together with all its boids; the
    /// remaining flocks and boids keep their order. Fails, changing nothing,
    /// where no such flock is registered.
    pub fn unregister_flock(&mut self, id: u64) -> (r: Result<(), Fault>)
        requires
            old(self).wf(),
        ensures
            final(self).wf(),
            r is Err <==> !old(self).flock_ids().contains(id),
            r is Err ==> r == Err::<(), Fault>(Fault::UnknownFlock(id))
                && final(self).rows() == old(self).rows()
                && final(self).flock_ids() == old(self).flock_ids()
                && final(self).flock_configs() == old(self).flock_configs(),
            r is Ok ==> final(self).rows() == old(self).rows().filter(
                |a: (u64, u64, S)| a.1 != id,
            ),
            r is Ok ==> exists|g: int|
                0 <= g < old(self).flock_ids().len() && old(self).flock_ids()[g] == id
                    && final(self).flock_ids() == old(self).flock_ids().remove(g)
                    && final(self).flock_configs() == old(self).flock_configs().remove(g),
    {
        if !set_contains(&self.flocks, id) {
            return Err(Fault::UnknownFlock(id));
        }
        let ghost rows0 = self.rows();
        let ghost keep: spec_fn((u64, u64, S)) -> bool = |a: (u64, u64, S)| a.1 != id;
        let mut i: usize = 0;
        let ghost mut j: int = 0;
        while i < map_len(&self.boids)
            invariant
                self.wf(),
                self.flocks == old(self).flocks,
                self.configs == old(self).configs,
                keep == (|a: (u64, u64, S)| a.1 != id),
                0 <= j <= rows0.len(),
                i == rows0.take(j).filter(keep).len(),
                self.rows() == rows0.take(j).filter(keep) + rows0.skip(j),
            decreases rows0.len() - j,
        {
            proof {
                self.lemma_rows();
                lemma_filter_take_step(rows0, keep, j);
                assert(self.rows()[i as int] == rows0[j]);
            }
            let ghost before = self.rows();
            let ghost done = rows0.take(j).filter(keep);
            assert(rows0.skip(j) =~= seq![rows0[j]] + rows0.skip(j + 1));
            let (_, g) = map_entry_at(&self.boids, i);
            assert(g == rows0[j].1);
            if g == id {
                self.remove_row(i);
                proof {
                    assert(before.remove(i as int) =~= done + rows0.skip(j + 1));
                    assert(!keep(rows0[j]));
                    assert(rows0.take(j + 1).filter(keep) == done);
                }
            } else {
                i = i + 1;
                proof {
                    assert(before =~= done.push(rows0[j]) + rows0.skip(j + 1));
                    assert(keep(rows0[j]));
                    assert(rows0.take(j + 1).filter(keep) == done.push(rows0[j]));
                }
            }
            proof {
                j = j + 1;
            }
        }
        proof {
            self.lemma_rows();
            assert(rows0.take(j) =~= rows0) by {
                if j < rows0.len() {
                    assert((rows0.take(j).filter(keep) + rows0.skip(j)).len() > i);
                }
            }
            assert(self.rows() =~= rows0.filter(keep));
        }
        let removed = set_shift_remove(&mut self.flocks, id);
        let g = removed.unwrap();
        self.configs.remove(g);
        proof {
            let e = map_entries(self.boids);
            let gs = set_items(self.flocks);
            let ogs = set_items(old(self).flocks);
            assert(gs =~= ogs.remove(g as int));
            assert(ogs[g as int] == id);
            assert(self.flock_configs() =~= old(self).flock_configs().remove(g as int));
            assert(self.flock_ids() == old(self).flock_ids().remove(g as int));
            assert forall|x: int| 0 <= x < e.len() implies gs.contains(#[trigger] e[x].1) by {
                assert(self.rows()[x].1 == e[x].1);
                rows0.lemma_filter_pred(keep, x);
                let y = choose|y: int| 0 <= y < ogs.len() && ogs[y] == e[x].1;
                assert(y != g);
                if y < g {
                    assert(gs[y] == ogs[y]);
                } else {
                    assert(gs[y - 1] == ogs[y]);
                }
            }
            assert forall|a: int, b: int| 0 <= a < b < gs.len() implies gs[a] != gs[b] by {
                let a2 = if a < g { a } else { a + 1 };
                let b2 = if b < g { b } else { b + 1 };
                assert(gs[a] == ogs[a2] && gs[b] == ogs[b2]);
            }
        }
        Ok(())
    }
}

} // verus!
